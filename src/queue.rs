use crate::ids::{new_uuid, now_micros};
use crate::model::{SchedError, TaskActiveStatus, TaskMode};
use crate::registry::capable_exists;
use crate::store::{
    has_job, has_terminal, job_pos, Job, JobView, Store, StoreView, TerminalJob, TerminalJobView,
};
use vstd::prelude::*;

verus! {

/// A submission: the OpenQASM source, its declared size and depth, the
/// shots wanted and how partial results are to be merged.
#[derive(Debug)]
pub struct EmulateMessage {
    pub code: String,
    pub qubits: u32,
    pub depth: u32,
    pub shots: u32,
    pub mode: Option<TaskMode>,
}

/// A job found by id, in whichever table holds it.
#[derive(Debug)]
pub enum TaskRecord<'a> {
    Active(&'a Job),
    Terminal(&'a TerminalJob),
}

/// `a` goes before `b`: less virtual progress, or as much and created
/// earlier.
pub open spec fn runs_before(a: JobView, b: JobView) -> bool {
    a.v_exec_shots < b.v_exec_shots || (a.v_exec_shots == b.v_exec_shots && a.created_time
        < b.created_time)
}

/// Position of the waiting job that goes first, the first in table order
/// among equals.
pub open spec fn top_waiting(s: Seq<JobView>) -> Option<int>
    decreases s.len(),
{
    if s.len() == 0 {
        None
    } else {
        let r = top_waiting(s.drop_last());
        let l = s.last();
        if l.status == TaskActiveStatus::Waiting && (r is None || runs_before(l, s[r->0])) {
            Some(s.len() - 1)
        } else {
            r
        }
    }
}

/// The least virtual progress among waiting jobs.
pub open spec fn min_waiting_v(s: Seq<JobView>) -> Option<u64>
    decreases s.len(),
{
    if s.len() == 0 {
        None
    } else {
        let r = min_waiting_v(s.drop_last());
        let l = s.last();
        if l.status == TaskActiveStatus::Waiting && (r is None || l.v_exec_shots < r->0) {
            Some(l.v_exec_shots)
        } else {
            r
        }
    }
}

/// The virtual progress a new job starts from: the current minimum over
/// waiting jobs, or zero when none waits.
pub open spec fn start_v(s: Seq<JobView>) -> u64 {
    match min_waiting_v(s) {
        Some(v) => v,
        None => 0,
    }
}

pub open spec fn submitted(m: EmulateMessage, id: u128, now: i64, v: u64) -> JobView {
    JobView {
        id,
        source: m.code@,
        qubits: m.qubits,
        depth: m.depth,
        shots: m.shots,
        exec_shots: 0,
        v_exec_shots: v,
        mode: m.mode,
        result: None,
        status: TaskActiveStatus::Waiting,
        created_time: now,
        updated_time: now,
    }
}

pub open spec fn job_id_in_use(s: StoreView, id: u128) -> bool {
    has_job(s.active, id) || has_terminal(s.terminal, id)
}

/// A submission is refused when it asks for no shots or no agent is large
/// enough for it.
pub open spec fn rejected(s: StoreView, m: EmulateMessage) -> bool {
    m.shots == 0 || !capable_exists(s.agents, m.qubits, m.depth)
}

pub open spec fn terminal_pos(s: Seq<TerminalJobView>, id: u128) -> int {
    choose|i: int| 0 <= i < s.len() && s[i].id == id
}

/// Position `p` comes before position `q` in the priority order of the
/// active table: it goes first, or they tie and `p` is earlier in the table.
pub open spec fn comes_before(s: Seq<JobView>, p: int, q: int) -> bool {
    runs_before(s[p], s[q]) || (!runs_before(s[q], s[p]) && p < q)
}

/// `order` lists the positions of all waiting jobs, each once, in priority
/// order.
pub open spec fn is_waiting_order(s: Seq<JobView>, order: Seq<usize>) -> bool {
    &&& forall|i: int|
        0 <= i < order.len() ==> (#[trigger] order[i] as int) < s.len() && s[order[i] as int].status
            == TaskActiveStatus::Waiting
    &&& forall|i: int, j: int|
        0 <= i < j < order.len() ==> comes_before(s, #[trigger] order[i] as int, #[trigger] order[j] as int)
    &&& forall|p: int|
        0 <= p < s.len() && (#[trigger] s[p]).status == TaskActiveStatus::Waiting ==> exists|i: int|
            0 <= i < order.len() && order[i] == p
}

pub open spec fn job_refs_view(v: Seq<&Job>) -> Seq<JobView> {
    v.map_values(|j: &Job| j@)
}

pub proof fn lemma_top_waiting_in_range(s: Seq<JobView>)
    ensures
        top_waiting(s) matches Some(i) ==> 0 <= i < s.len() && s[i].status == TaskActiveStatus::Waiting,
        top_waiting(s) is None ==> forall|i: int|
            0 <= i < s.len() ==> (#[trigger] s[i]).status != TaskActiveStatus::Waiting,
    decreases s.len(),
{
    if s.len() > 0 {
        lemma_top_waiting_in_range(s.drop_last());
        assert forall|i: int| 0 <= i < s.len() - 1 implies #[trigger] s[i] == s.drop_last()[i] by {}
    }
}

/// The job `top_waiting` picks goes before, or ties with, every waiting job,
/// and strictly before every waiting job earlier in the table.
pub proof fn lemma_top_waiting_first(s: Seq<JobView>)
    ensures
        top_waiting(s) matches Some(i) ==> forall|j: int|
            0 <= j < s.len() && (#[trigger] s[j]).status == TaskActiveStatus::Waiting ==> !runs_before(
                s[j],
                s[i],
            ) && (j < i ==> runs_before(s[i], s[j])),
    decreases s.len(),
{
    if s.len() > 0 {
        let f = s.drop_last();
        lemma_top_waiting_first(f);
        lemma_top_waiting_in_range(f);
        lemma_top_waiting_in_range(s);
        assert forall|i: int| 0 <= i < s.len() - 1 implies #[trigger] s[i] == f[i] by {}
    }
}

impl Store {
    /// Position of the active job with id `id`.
    pub fn find_active(&self, id: u128) -> (r: Option<usize>)
        requires
            self@.keys_unique(),
        ensures
            r is None <==> !has_job(self@.active, id),
            r matches Some(i) ==> i == job_pos(self@.active, id) && i < self@.active.len(),
    {
        let mut i: usize = 0;
        while i < self.active.len()
            invariant
                i <= self.active.len(),
                self@.keys_unique(),
                forall|t: int| 0 <= t < i ==> self@.active[t].id != id,
            decreases self.active.len() - i,
        {
            if self.active[i].id == id {
                proof {
                    let p = job_pos(self@.active, id);
                    assert(self@.active[i as int].id == id);
                    if i < p {
                        assert(self@.active[i as int].id != self@.active[p].id);
                    }
                }
                return Some(i);
            }
            i = i + 1;
        }
        None
    }

    /// Position of the terminal job with id `id`.
    pub fn find_terminal(&self, id: u128) -> (r: Option<usize>)
        requires
            self@.keys_unique(),
        ensures
            r is None <==> !has_terminal(self@.terminal, id),
            r matches Some(i) ==> i == terminal_pos(self@.terminal, id) && i < self@.terminal.len(),
    {
        let mut i: usize = 0;
        while i < self.terminal.len()
            invariant
                i <= self.terminal.len(),
                self@.keys_unique(),
                forall|t: int| 0 <= t < i ==> self@.terminal[t].id != id,
            decreases self.terminal.len() - i,
        {
            if self.terminal[i].id == id {
                proof {
                    let p = terminal_pos(self@.terminal, id);
                    assert(self@.terminal[i as int].id == id);
                    if i < p {
                        assert(self@.terminal[i as int].id != self@.terminal[p].id);
                    }
                }
                return Some(i);
            }
            i = i + 1;
        }
        None
    }

    /// The job with id `id`, active or terminal; a well-formed store holds it
    /// in at most one of the two tables.
    pub fn get_task(&self, id: u128) -> (r: Option<TaskRecord<'_>>)
        requires
            self@.wf(),
        ensures
            r is None <==> !has_job(self@.active, id) && !has_terminal(self@.terminal, id),
            r matches Some(TaskRecord::Active(j)) ==> has_job(self@.active, id) && j@
                == self@.active[job_pos(self@.active, id)],
            r matches Some(TaskRecord::Terminal(j)) ==> !has_job(self@.active, id) && j@
                == self@.terminal[terminal_pos(self@.terminal, id)],
    {
        match self.find_active(id) {
            Some(i) => Some(TaskRecord::Active(&self.active[i])),
            None => match self.find_terminal(id) {
                Some(i) => Some(TaskRecord::Terminal(&self.terminal[i])),
                None => None,
            },
        }
    }

    /// The least `v_exec_shots` among waiting jobs, zero when none waits.
    pub fn get_min_vexec_shots(&self) -> (r: u64)
        ensures
            r == start_v(self@.active),
    {
        let ghost all = self@.active;
        let mut best: Option<u64> = None;
        let mut i: usize = 0;
        while i < self.active.len()
            invariant
                i <= self.active.len(),
                all == self@.active,
                best == min_waiting_v(all.take(i as int)),
            decreases self.active.len() - i,
        {
            proof {
                assert(all.take(i + 1).drop_last() =~= all.take(i as int));
                assert(all[i as int] == self.active@[i as int]@);
            }
            let j = &self.active[i];
            if j.status == TaskActiveStatus::Waiting {
                let lower = match best {
                    None => true,
                    Some(b) => j.v_exec_shots < b,
                };
                if lower {
                    best = Some(j.v_exec_shots);
                }
            }
            i = i + 1;
        }
        assert(all.take(i as int) =~= all);
        match best {
            Some(v) => v,
            None => 0,
        }
    }

    fn comes_before_exec(&self, p: usize, q: usize) -> (r: bool)
        requires
            p < self@.active.len(),
            q < self@.active.len(),
        ensures
            r == comes_before(self@.active, p as int, q as int),
    {
        proof {
            assert(self@.active[p as int] == self.active@[p as int]@);
            assert(self@.active[q as int] == self.active@[q as int]@);
        }
        let a = &self.active[p];
        let b = &self.active[q];
        let ab = a.v_exec_shots < b.v_exec_shots || (a.v_exec_shots == b.v_exec_shots
            && a.created_time < b.created_time);
        let ba = b.v_exec_shots < a.v_exec_shots || (b.v_exec_shots == a.v_exec_shots
            && b.created_time < a.created_time);
        ab || (!ba && p < q)
    }

    /// Positions of the waiting jobs in priority order: least virtual
    /// progress first, then earliest created, then earliest in the table.
    pub fn waiting_positions(&self) -> (r: Vec<usize>)
        ensures
            is_waiting_order(self@.active, r@),
    {
        let ghost s = self@.active;
        let n = self.active.len();
        let mut out: Vec<usize> = Vec::new();
        let mut p: usize = 0;
        while p < n
            invariant
                n == self.active.len(),
                s == self@.active,
                p <= n,
                forall|i: int|
                    0 <= i < out@.len() ==> (#[trigger] out@[i] as int) < p && s[out@[i] as int].status
                        == TaskActiveStatus::Waiting,
                forall|i: int, j: int|
                    0 <= i < j < out@.len() ==> comes_before(s, #[trigger] out@[i] as int, #[trigger] out@[j] as int),
                forall|q: int|
                    0 <= q < p && (#[trigger] s[q]).status == TaskActiveStatus::Waiting ==> exists|i: int|
                        0 <= i < out@.len() && out@[i] == q,
            decreases n - p,
        {
            proof {
                assert(s[p as int] == self.active@[p as int]@);
            }
            if self.active[p].status == TaskActiveStatus::Waiting {
                let mut t: usize = 0;
                while t < out.len() && !self.comes_before_exec(p, out[t])
                    invariant
                        n == self.active.len(),
                        s == self@.active,
                        p < n,
                        t <= out@.len(),
                        forall|i: int| 0 <= i < out@.len() ==> (#[trigger] out@[i] as int) < p,
                        forall|j: int| 0 <= j < t ==> !comes_before(s, p as int, #[trigger] out@[j] as int),
                    decreases out.len() - t,
                {
                    t = t + 1;
                }
                let ghost o = out@;
                out.insert(t, p);
                proof {
                    o.insert_ensures(t as int, p);
                    assert forall|i: int, j: int|
                        0 <= i < j < out@.len() implies comes_before(s, #[trigger] out@[i] as int, #[trigger] out@[j] as int) by {
                        if j < t {
                            assert(out@[i] == o[i] && out@[j] == o[j]);
                        } else if j == t {
                            assert(out@[i] == o[i]);
                            assert(!comes_before(s, p as int, o[i] as int));
                        } else if i == t {
                            assert(out@[j] == o[j - 1]);
                            assert(t < o.len());
                            assert(comes_before(s, p as int, o[t as int] as int));
                            if j - 1 > t {
                                assert(comes_before(s, o[t as int] as int, o[j - 1] as int));
                            }
                        } else if i < t {
                            assert(out@[i] == o[i] && out@[j] == o[j - 1]);
                        } else {
                            assert(out@[i] == o[i - 1] && out@[j] == o[j - 1]);
                        }
                    }
                    assert forall|q: int|
                        0 <= q < p + 1 && (#[trigger] s[q]).status == TaskActiveStatus::Waiting implies exists|i: int|
                            0 <= i < out@.len() && out@[i] == q by {
                        if q == p {
                            assert(out@[t as int] == p);
                        } else {
                            let i = choose|i: int| 0 <= i < o.len() && o[i] == q;
                            if i < t {
                                assert(out@[i] == q);
                            } else {
                                assert(out@[i + 1] == q);
                            }
                        }
                    }
                    assert forall|i: int| 0 <= i < out@.len() implies (#[trigger] out@[i] as int) < p + 1
                        && s[out@[i] as int].status == TaskActiveStatus::Waiting by {
                        if i < t {
                            assert(out@[i] == o[i]);
                        } else if i > t {
                            assert(out@[i] == o[i - 1]);
                        }
                    }
                }
            }
            p = p + 1;
        }
        out
    }

    /// The waiting jobs in priority order; see [`Store::waiting_positions`].
    pub fn get_asc_tasks(&self) -> (r: Vec<&Job>)
        ensures
            exists|order: Seq<usize>|
                #[trigger] is_waiting_order(self@.active, order) && order.len() == r@.len() && forall|i: int|
                    0 <= i < order.len() ==> job_refs_view(r@)[i] == self@.active[order[i] as int],
    {
        let order = self.waiting_positions();
        let mut out: Vec<&Job> = Vec::new();
        let mut i: usize = 0;
        while i < order.len()
            invariant
                i <= order.len(),
                is_waiting_order(self@.active, order@),
                out@.len() == i,
                forall|k: int| 0 <= k < i ==> job_refs_view(out@)[k] == self@.active[order@[k] as int],
            decreases order.len() - i,
        {
            proof {
                assert((order@[i as int] as int) < self@.active.len());
                assert(self@.active[order@[i as int] as int] == self.active@[order@[i as int] as int]@);
            }
            let ghost before = out@;
            out.push(&self.active[order[i]]);
            proof {
                assert forall|k: int| 0 <= k < i + 1 implies job_refs_view(out@)[k] == self@.active[order@[k] as int] by {
                    if k < i {
                        assert(out@[k] == before[k]);
                        assert(job_refs_view(before)[k] == before[k]@);
                    }
                }
            }
            i = i + 1;
        }
        out
    }

    /// Position of the waiting job that goes first.
    pub fn top_waiting_position(&self) -> (r: Option<usize>)
        ensures
            r matches Some(i) ==> top_waiting(self@.active) == Some(i as int) && i < self@.active.len(),
            r is None ==> top_waiting(self@.active) is None,
    {
        let ghost all = self@.active;
        let mut best: Option<usize> = None;
        let mut i: usize = 0;
        while i < self.active.len()
            invariant
                i <= self.active.len(),
                all == self@.active,
                best matches Some(b) ==> top_waiting(all.take(i as int)) == Some(b as int) && b < i,
                best is None ==> top_waiting(all.take(i as int)) is None,
            decreases self.active.len() - i,
        {
            proof {
                assert(all.take(i + 1).drop_last() =~= all.take(i as int));
                assert(all[i as int] == self.active@[i as int]@);
            }
            let j = &self.active[i];
            if j.status == TaskActiveStatus::Waiting {
                let first = match best {
                    None => true,
                    Some(b) => j.v_exec_shots < self.active[b].v_exec_shots || (j.v_exec_shots
                        == self.active[b].v_exec_shots && j.created_time
                        < self.active[b].created_time),
                };
                if first {
                    best = Some(i);
                }
            }
            i = i + 1;
        }
        assert(all.take(i as int) =~= all);
        best
    }

    /// Admits a job under id `id`, created at `now`, waiting, with no shots
    /// run and the current minimum virtual progress. Fails with
    /// `AdmissionRejected` when no agent is large enough or no shots are
    /// asked for, and with `Storage` when the id is in use; nothing changes
    /// then.
    pub fn submit_with(&mut self, id: u128, now: i64, msg: EmulateMessage) -> (r: Result<
        u128,
        SchedError,
    >)
        requires
            old(self)@.wf(),
        ensures
            final(self)@.wf(),
            r == Err::<u128, SchedError>(SchedError::AdmissionRejected) <==> rejected(old(self)@, msg),
            r == Err::<u128, SchedError>(SchedError::Storage) <==> !rejected(old(self)@, msg)
                && job_id_in_use(old(self)@, id),
            !rejected(old(self)@, msg) && !job_id_in_use(old(self)@, id) ==> r == Ok::<
                u128,
                SchedError,
            >(id),
            r.is_ok() ==> r == Ok::<u128, SchedError>(id) && final(self)@ == (StoreView {
                active: old(self)@.active.push(submitted(msg, id, now, start_v(old(self)@.active))),
                ..old(self)@
            }),
            r.is_err() ==> final(self)@ == old(self)@,
    {
        if msg.shots == 0 || !self.get_physical_agent_available(msg.qubits, msg.depth) {
            return Err(SchedError::AdmissionRejected);
        }
        if self.find_active(id).is_some() || self.find_terminal(id).is_some() {
            return Err(SchedError::Storage);
        }
        let v = self.get_min_vexec_shots();
        let ghost before = self@;
        let ghost m = msg;
        let job = Job {
            id,
            source: msg.code,
            qubits: msg.qubits,
            depth: msg.depth,
            shots: msg.shots,
            exec_shots: 0,
            v_exec_shots: v,
            mode: msg.mode,
            result: None,
            status: TaskActiveStatus::Waiting,
            created_time: now,
            updated_time: now,
        };
        self.active.push(job);
        proof {
            let jv = submitted(m, id, now, v);
            let t = before.active.push(jv);
            assert(self@.active =~= t);
            assert(self@.keys_unique()) by {
                assert forall|x: int, y: int| 0 <= x < y < t.len() implies #[trigger] t[x].id
                    != #[trigger] t[y].id by {
                    if y == before.active.len() {
                        assert(t[x] == before.active[x]);
                    }
                }
            }
            assert(self@.tables_disjoint()) by {
                assert forall|x: int, y: int| 0 <= x < t.len() && 0 <= y < before.terminal.len() implies #[trigger] t[x].id
                    != #[trigger] before.terminal[y].id by {
                    if x == before.active.len() {
                        assert(!has_terminal(before.terminal, id));
                    } else {
                        assert(t[x] == before.active[x]);
                    }
                }
            }
            assert(self@.shots_within_bounds()) by {
                assert forall|x: int| 0 <= x < t.len() implies 0 <= #[trigger] t[x].exec_shots < t[x].shots by {
                    if x < before.active.len() {
                        assert(t[x] == before.active[x]);
                    }
                }
            }
            assert(self@.slices_consistent()) by {
                assert forall|k: int|
                    0 <= k < before.assignments.len() && (#[trigger] before.assignments[k]).status
                        == crate::model::AssignmentStatus::Running implies {
                        let a = before.assignments[k];
                        &&& has_job(t, a.task_id)
                        &&& t[job_pos(t, a.task_id)] == before.active[job_pos(before.active, a.task_id)]
                    } by {
                    let a = before.assignments[k];
                    let p = job_pos(before.active, a.task_id);
                    assert(t[p] == before.active[p]);
                    let p2 = job_pos(t, a.task_id);
                    if p2 != p {
                        if p2 == before.active.len() {
                            assert(has_job(before.active, id));
                        } else if p2 < p {
                            assert(before.active[p2].id != before.active[p].id);
                        } else {
                            assert(before.active[p].id != before.active[p2].id);
                        }
                    }
                }
            }
        }
        Ok(id)
    }

    /// Admits a job under a fresh random id, stamped with the current time;
    /// see [`Store::submit_with`].
    pub fn submit(&mut self, msg: EmulateMessage) -> (r: Result<u128, SchedError>)
        requires
            old(self)@.wf(),
        ensures
            final(self)@.wf(),
            r == Err::<u128, SchedError>(SchedError::AdmissionRejected) <==> rejected(old(self)@, msg),
            r is Err ==> r == Err::<u128, SchedError>(SchedError::AdmissionRejected) || (r
                == Err::<u128, SchedError>(SchedError::Storage) && old(self)@.active.len()
                + old(self)@.terminal.len() > 0),
            r matches Ok(id) ==> final(self)@ == (StoreView {
                active: old(self)@.active.push(
                    submitted(msg, id, final(self)@.active.last().created_time, start_v(old(self)@.active)),
                ),
                ..old(self)@
            }),
            r.is_err() ==> final(self)@ == old(self)@,
    {
        let id = new_uuid();
        let now = now_micros();
        let ghost before = self@;
        let ghost m = msg;
        let r = self.submit_with(id, now, msg);
        proof {
            if r.is_ok() {
                assert(self@ == (StoreView {
                    active: before.active.push(submitted(m, id, now, start_v(before.active))),
                    ..before
                }));
            }
        }
        r
    }
}

} // verus!
