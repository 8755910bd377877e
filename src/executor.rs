use crate::ids::now_micros;
use crate::memory::{merge_memory, merged, Memory, MemoryView};
use crate::model::{AssignmentStatus, SchedError, TaskActiveStatus, TaskStatus};
use crate::store::{
    agent_pos, assignment_pos, has_agent, has_assignment, has_job, ids_distinct, job_pos,
    lemma_job_pos, lemma_reserved_covers, lemma_reserved_update, reserved, AgentView, Assignment,
    JobView, Store, StoreView, TerminalJob, TerminalJobView, TerminalResult, TerminalResultView,
};
use vstd::prelude::*;

verus! {

/// What came back from an agent for one slice: its `Memory`, or why the
/// call failed.
#[derive(Debug)]
pub enum SliceOutcome {
    Success(Memory),
    Failure(String),
}

pub enum SliceOutcomeView {
    Success(MemoryView),
    Failure(Seq<char>),
}

impl View for SliceOutcome {
    type V = SliceOutcomeView;

    open spec fn view(&self) -> SliceOutcomeView {
        match self {
            SliceOutcome::Success(m) => SliceOutcomeView::Success(m@),
            SliceOutcome::Failure(e) => SliceOutcomeView::Failure(e@),
        }
    }
}

/// Where a job stands after one of its slices completed.
#[derive(PartialEq, Eq, Structural, Clone, Copy, Debug)]
pub enum SliceVerdict {
    /// Shots remain; the job waits for its next slice.
    Continued,
    /// All shots ran; the job is terminal and succeeded.
    Succeeded,
    /// The slice failed or its result could not be merged; the job is
    /// terminal and failed.
    Failed,
}

/// The error text of a job whose slice result does not merge.
pub open spec fn decode_error() -> Seq<char> {
    "Memory of the slice does not merge with the result of the job"@
}

/// The assignment `id` exists and is running.
pub open spec fn in_flight(s: StoreView, id: u128) -> bool {
    has_assignment(s.assignments, id) && s.assignments[assignment_pos(s.assignments, id)].status
        == AssignmentStatus::Running
}

/// No running assignment belongs to job `id`.
pub open spec fn no_slice_for(s: StoreView, id: u128) -> bool {
    forall|k: int|
        0 <= k < s.assignments.len() && (#[trigger] s.assignments[k]).status
            == AssignmentStatus::Running ==> s.assignments[k].task_id != id
}

pub open spec fn add_sat(v: u64, n: u32) -> u64 {
    if v + n <= u64::MAX {
        (v + n) as u64
    } else {
        u64::MAX
    }
}

/// `q` qubits go back to the agent, never above its capacity; nothing
/// happens when the agent is gone.
pub open spec fn released(s: StoreView, agent: u128, q: u32) -> StoreView {
    if has_agent(s.agents, agent) {
        let i = agent_pos(s.agents, agent);
        let a = s.agents[i];
        let n = if a.qubit_idle + q <= a.qubit_count {
            (a.qubit_idle + q) as u32
        } else {
            a.qubit_count
        };
        StoreView { agents: s.agents.update(i, AgentView { qubit_idle: n, ..a }), ..s }
    } else {
        s
    }
}

pub open spec fn marked(s: StoreView, k: int, st: AssignmentStatus) -> StoreView {
    StoreView {
        assignments: s.assignments.update(k, Assignment { status: st, ..s.assignments[k] }),
        ..s
    }
}

/// The job at `jp` moves to the terminal table with its status and result.
pub open spec fn promoted(s: StoreView, jp: int, status: TaskStatus, result: TerminalResultView) -> StoreView {
    let j = s.active[jp];
    StoreView {
        active: s.active.remove(jp),
        terminal: s.terminal.push(
            TerminalJobView {
                id: j.id,
                source: j.source,
                qubits: j.qubits,
                depth: j.depth,
                shots: j.shots,
                mode: j.mode,
                result,
                status,
                created_time: j.created_time,
                updated_time: j.updated_time,
            },
        ),
        ..s
    }
}

/// The job at `jp` counts `n` more shots, real and virtual, carries the
/// merged result and waits again.
pub open spec fn progressed(s: StoreView, jp: int, n: u32, m: MemoryView, now: i64) -> StoreView {
    let j = s.active[jp];
    StoreView {
        active: s.active.update(
            jp,
            JobView {
                exec_shots: (j.exec_shots + n) as u32,
                v_exec_shots: add_sat(j.v_exec_shots, n),
                result: Some(m),
                status: TaskActiveStatus::Waiting,
                updated_time: now,
                ..j
            },
        ),
        ..s
    }
}

/// The job's result once `body` is taken in: `body` itself for the first
/// slice, else the merge by the job's mode.
pub open spec fn merged_result(j: JobView, body: MemoryView) -> Option<MemoryView> {
    match j.result {
        None => Some(body),
        Some(p) => merged(j.mode, p, body),
    }
}

/// The store and verdict after the running assignment at `k` completes
/// with `o` at time `now`.
pub open spec fn finished(s: StoreView, k: int, o: SliceOutcomeView, now: i64) -> (StoreView, SliceVerdict) {
    let a = s.assignments[k];
    let jp = job_pos(s.active, a.task_id);
    let j = s.active[jp];
    let r = released(s, a.agent_id, a.qubits);
    match o {
        SliceOutcomeView::Failure(msg) => (
            promoted(marked(r, k, AssignmentStatus::Failed), jp, TaskStatus::Failed, TerminalResultView::Error(msg)),
            SliceVerdict::Failed,
        ),
        SliceOutcomeView::Success(body) => match merged_result(j, body) {
            None => (
                promoted(
                    marked(r, k, AssignmentStatus::Failed),
                    jp,
                    TaskStatus::Failed,
                    TerminalResultView::Error(decode_error()),
                ),
                SliceVerdict::Failed,
            ),
            Some(m) => if j.exec_shots + a.shots >= j.shots {
                (
                    promoted(
                        marked(r, k, AssignmentStatus::Succeeded),
                        jp,
                        TaskStatus::Succeeded,
                        TerminalResultView::Memory(m),
                    ),
                    SliceVerdict::Succeeded,
                )
            } else {
                (progressed(marked(r, k, AssignmentStatus::Succeeded), jp, a.shots, m, now), SliceVerdict::Continued)
            },
        },
    }
}

/// Giving back a running slice's qubits and closing its assignment keeps the
/// store well formed and leaves its job with no slice in flight.
pub proof fn lemma_close_slice_wf(s: StoreView, k: int, st: AssignmentStatus)
    requires
        s.wf(),
        0 <= k < s.assignments.len(),
        s.assignments[k].status == AssignmentStatus::Running,
        st != AssignmentStatus::Running,
    ensures
        ({
            let a = s.assignments[k];
            let t = marked(released(s, a.agent_id, a.qubits), k, st);
            &&& t.wf()
            &&& no_slice_for(t, a.task_id)
            &&& t.active == s.active
        }),
{
    let a = s.assignments[k];
    let r = released(s, a.agent_id, a.qubits);
    let t = marked(r, k, st);
    let na = Assignment { status: st, ..a };
    assert(t.assignments == s.assignments.update(k, na));
    if has_agent(s.agents, a.agent_id) {
        let i = agent_pos(s.agents, a.agent_id);
        assert(reserved(s.assignments, s.agents[i].id) == s.agents[i].qubit_count - s.agents[i].qubit_idle);
        lemma_reserved_covers(s.assignments, k, a.agent_id);
    }
    assert(t.keys_unique()) by {
        assert forall|x: int, y: int| 0 <= x < y < t.agents.len() implies #[trigger] t.agents[x].id
            != #[trigger] t.agents[y].id by {
            assert(s.agents[x].id != s.agents[y].id);
        }
        assert forall|x: int, y: int| 0 <= x < y < t.assignments.len() implies #[trigger] t.assignments[x].id
            != #[trigger] t.assignments[y].id by {
            assert(s.assignments[x].id != s.assignments[y].id);
        }
    }
    assert(t.idle_within_capacity()) by {
        assert forall|x: int| 0 <= x < t.agents.len() implies 0 <= #[trigger] t.agents[x].qubit_idle
            <= t.agents[x].qubit_count by {
            assert(s.agents[x].qubit_idle <= s.agents[x].qubit_count);
        }
    }
    assert(t.reservations_match()) by {
        assert forall|x: int| 0 <= x < t.agents.len() implies reserved(
            t.assignments,
            #[trigger] t.agents[x].id,
        ) == t.agents[x].qubit_count - t.agents[x].qubit_idle by {
            let g = s.agents[x].id;
            lemma_reserved_update(s.assignments, k, na, g);
            assert(reserved(s.assignments, g) == s.agents[x].qubit_count - s.agents[x].qubit_idle);
            if has_agent(s.agents, a.agent_id) {
                let i = agent_pos(s.agents, a.agent_id);
                if x != i {
                    if x < i {
                        assert(s.agents[x].id != s.agents[i].id);
                    } else {
                        assert(s.agents[i].id != s.agents[x].id);
                    }
                }
            }
        }
    }
    assert(t.addresses_unique()) by {
        assert forall|x: int, y: int| 0 <= x < y < t.agents.len() implies !(#[trigger] t.agents[x].ip
            == #[trigger] t.agents[y].ip && t.agents[x].port == t.agents[y].port) by {
            assert(!(s.agents[x].ip == s.agents[y].ip && s.agents[x].port == s.agents[y].port));
        }
    }
    assert(t.slices_consistent()) by {
        assert forall|x: int|
            0 <= x < t.assignments.len() && (#[trigger] t.assignments[x]).status
                == AssignmentStatus::Running implies {
                let b = t.assignments[x];
                &&& has_job(t.active, b.task_id)
                &&& t.active[job_pos(t.active, b.task_id)].status == TaskActiveStatus::Running
                &&& t.active[job_pos(t.active, b.task_id)].exec_shots + b.shots
                    <= t.active[job_pos(t.active, b.task_id)].shots
                &&& b.shots >= 1
                &&& b.qubits == t.active[job_pos(t.active, b.task_id)].qubits
            } by {
            assert(s.assignments[x] == t.assignments[x]);
        }
        assert forall|x: int, y: int|
            0 <= x < y < t.assignments.len() && (#[trigger] t.assignments[x]).status
                == AssignmentStatus::Running && (#[trigger] t.assignments[y]).status
                == AssignmentStatus::Running implies t.assignments[x].task_id
            != t.assignments[y].task_id by {
            assert(s.assignments[x].task_id != s.assignments[y].task_id);
        }
    }
    assert(no_slice_for(t, a.task_id)) by {
        assert forall|x: int|
            0 <= x < t.assignments.len() && (#[trigger] t.assignments[x]).status
                == AssignmentStatus::Running implies t.assignments[x].task_id != a.task_id by {
            if x < k {
                assert(s.assignments[x].task_id != s.assignments[k].task_id);
            } else {
                assert(s.assignments[k].task_id != s.assignments[x].task_id);
            }
        }
    }
}

/// Moving a job with no slice in flight to the terminal table keeps the
/// store well formed.
pub proof fn lemma_promote_wf(t: StoreView, jp: int, status: TaskStatus, res: TerminalResultView)
    requires
        t.wf(),
        0 <= jp < t.active.len(),
        no_slice_for(t, t.active[jp].id),
    ensures
        promoted(t, jp, status, res).wf(),
{
    let u = promoted(t, jp, status, res);
    let jid = t.active[jp].id;
    let na = t.active.remove(jp);
    assert forall|x: int| 0 <= x < na.len() implies #[trigger] na[x] == t.active[if x < jp { x } else { x + 1 }] by {}
    assert(ids_distinct(t.active)) by {
        assert(t.keys_unique());
    }
    assert(u.keys_unique()) by {
        assert forall|x: int, y: int| 0 <= x < y < na.len() implies #[trigger] na[x].id != #[trigger] na[y].id by {
            let x2 = if x < jp { x } else { x + 1 };
            let y2 = if y < jp { y } else { y + 1 };
            assert(t.active[x2].id != t.active[y2].id);
        }
        assert forall|x: int, y: int| 0 <= x < y < u.terminal.len() implies #[trigger] u.terminal[x].id
            != #[trigger] u.terminal[y].id by {
            if y == t.terminal.len() {
                assert(t.active[jp].id != t.terminal[x].id);
            } else {
                assert(t.terminal[x].id != t.terminal[y].id);
            }
        }
    }
    assert(u.shots_within_bounds()) by {
        assert forall|x: int| 0 <= x < na.len() implies 0 <= #[trigger] na[x].exec_shots < na[x].shots by {
            let x2 = if x < jp { x } else { x + 1 };
            assert(t.active[x2].exec_shots < t.active[x2].shots);
        }
    }
    assert(u.tables_disjoint()) by {
        assert forall|x: int, y: int| 0 <= x < na.len() && 0 <= y < u.terminal.len() implies #[trigger] na[x].id
            != #[trigger] u.terminal[y].id by {
            let x2 = if x < jp { x } else { x + 1 };
            if y == t.terminal.len() {
                if x2 < jp {
                    assert(t.active[x2].id != t.active[jp].id);
                } else {
                    assert(t.active[jp].id != t.active[x2].id);
                }
            } else {
                assert(t.active[x2].id != t.terminal[y].id);
            }
        }
    }
    assert(u.slices_consistent()) by {
        assert forall|x: int|
            0 <= x < u.assignments.len() && (#[trigger] u.assignments[x]).status
                == AssignmentStatus::Running implies {
                let b = u.assignments[x];
                &&& has_job(na, b.task_id)
                &&& na[job_pos(na, b.task_id)].status == TaskActiveStatus::Running
                &&& na[job_pos(na, b.task_id)].exec_shots + b.shots <= na[job_pos(na, b.task_id)].shots
                &&& b.shots >= 1
                &&& b.qubits == na[job_pos(na, b.task_id)].qubits
            } by {
            let b = t.assignments[x];
            let p = job_pos(t.active, b.task_id);
            assert(b.task_id != jid);
            assert(p != jp);
            let p2 = if p < jp { p } else { p - 1 };
            assert(na[p2] == t.active[p]);
            lemma_job_pos(na, b.task_id, p2);
        }
    }
}

/// A job with no slice in flight that counts a slice and still has shots to
/// go keeps the store well formed.
pub proof fn lemma_progress_wf(t: StoreView, jp: int, n: u32, m: MemoryView, now: i64)
    requires
        t.wf(),
        0 <= jp < t.active.len(),
        no_slice_for(t, t.active[jp].id),
        t.active[jp].exec_shots + n < t.active[jp].shots,
    ensures
        progressed(t, jp, n, m, now).wf(),
{
    let u = progressed(t, jp, n, m, now);
    let jid = t.active[jp].id;
    assert(ids_distinct(t.active)) by {
        assert(t.keys_unique());
    }
    assert(u.keys_unique()) by {
        assert forall|x: int, y: int| 0 <= x < y < u.active.len() implies #[trigger] u.active[x].id
            != #[trigger] u.active[y].id by {
            assert(t.active[x].id != t.active[y].id);
        }
    }
    assert(u.shots_within_bounds()) by {
        assert forall|x: int| 0 <= x < u.active.len() implies 0 <= #[trigger] u.active[x].exec_shots
            < u.active[x].shots by {
            assert(t.active[x].exec_shots < t.active[x].shots);
        }
    }
    assert(u.tables_disjoint()) by {
        assert forall|x: int, y: int| 0 <= x < u.active.len() && 0 <= y < u.terminal.len() implies #[trigger] u.active[x].id
            != #[trigger] u.terminal[y].id by {
            assert(t.active[x].id != t.terminal[y].id);
        }
    }
    assert(u.slices_consistent()) by {
        assert forall|x: int|
            0 <= x < u.assignments.len() && (#[trigger] u.assignments[x]).status
                == AssignmentStatus::Running implies {
                let b = u.assignments[x];
                &&& has_job(u.active, b.task_id)
                &&& u.active[job_pos(u.active, b.task_id)].status == TaskActiveStatus::Running
                &&& u.active[job_pos(u.active, b.task_id)].exec_shots + b.shots
                    <= u.active[job_pos(u.active, b.task_id)].shots
                &&& b.shots >= 1
                &&& b.qubits == u.active[job_pos(u.active, b.task_id)].qubits
            } by {
            let b = t.assignments[x];
            let p = job_pos(t.active, b.task_id);
            assert(b.task_id != jid);
            assert(p != jp);
            lemma_job_pos(u.active, b.task_id, p);
        }
    }
}

impl Store {
    /// Position of the running assignment with id `id`.
    fn find_in_flight(&self, id: u128) -> (r: Option<usize>)
        requires
            self@.keys_unique(),
        ensures
            r is None <==> !in_flight(self@, id),
            r matches Some(k) ==> k == assignment_pos(self@.assignments, id) && k
                < self@.assignments.len(),
    {
        let mut k: usize = 0;
        while k < self.assignments.len()
            invariant
                k <= self.assignments.len(),
                self@.keys_unique(),
                forall|t: int| 0 <= t < k ==> self@.assignments[t].id != id,
            decreases self.assignments.len() - k,
        {
            if self.assignments[k].id == id {
                proof {
                    let p = assignment_pos(self@.assignments, id);
                    assert(self@.assignments[k as int].id == id);
                    if k < p {
                        assert(self@.assignments[k as int].id != self@.assignments[p].id);
                    } else if p < k {
                        assert(self@.assignments[p].id != self@.assignments[k as int].id);
                    }
                }
                if self.assignments[k].status == AssignmentStatus::Running {
                    return Some(k);
                } else {
                    return None;
                }
            }
            k = k + 1;
        }
        None
    }

    fn promote(&mut self, jp: usize, status: TaskStatus, result: TerminalResult)
        requires
            jp < old(self)@.active.len(),
        ensures
            final(self)@ == promoted(old(self)@, jp as int, status, result@),
    {
        let ghost before = self@;
        let j = self.active.remove(jp);
        proof {
            assert(before.active[jp as int] == j@);
        }
        self.terminal.push(
            TerminalJob {
                id: j.id,
                source: j.source,
                qubits: j.qubits,
                depth: j.depth,
                shots: j.shots,
                mode: j.mode,
                result,
                status,
                created_time: j.created_time,
                updated_time: j.updated_time,
            },
        );
        proof {
            let u = promoted(before, jp as int, status, result@);
            assert(self@.active =~= u.active);
            assert(self@.terminal =~= u.terminal);
        }
    }

    /// Completes the running assignment `assignment_id` with what its agent
    /// answered, at time `now`: its qubits go back to the agent, the
    /// assignment is closed, and the job either counts the slice and waits
    /// again, or becomes terminal, succeeded when all its shots ran and
    /// failed when the call failed or the result does not merge. See
    /// [`finished`]. Fails with `NotFound`, changing nothing, when no such
    /// assignment is running.
    pub fn finish_slice_at(&mut self, assignment_id: u128, outcome: SliceOutcome, now: i64) -> (r:
        Result<SliceVerdict, SchedError>)
        requires
            old(self)@.wf(),
        ensures
            final(self)@.wf(),
            r is Err <==> !in_flight(old(self)@, assignment_id),
            r is Err ==> r == Err::<SliceVerdict, SchedError>(SchedError::NotFound) && final(self)@
                == old(self)@,
            r matches Ok(v) ==> (final(self)@, v) == finished(
                old(self)@,
                assignment_pos(old(self)@.assignments, assignment_id),
                outcome@,
                now,
            ),
    {
        let k = match self.find_in_flight(assignment_id) {
            Some(k) => k,
            None => return Err(SchedError::NotFound),
        };
        let ghost s0 = self@;
        let ghost o = outcome@;
        let a = self.assignments[k];
        proof {
            assert(s0.slices_consistent());
            assert(s0.assignments[k as int].status == AssignmentStatus::Running);
        }
        let jp = match self.find_active(a.task_id) {
            Some(jp) => jp,
            None => return Err(SchedError::NotFound),
        };
        let _ = self.release(a.agent_id, a.qubits);
        let ghost s1 = self@;
        proof {
            assert(s1 == released(s0, a.agent_id, a.qubits));
            assert(s1.active == s0.active);
            assert(s0.active[jp as int] == self.active@[jp as int]@);
        }
        match outcome {
            SliceOutcome::Failure(msg) => {
                self.assignments[k].status = AssignmentStatus::Failed;
                proof {
                    assert(self@ == marked(s1, k as int, AssignmentStatus::Failed)) by {
                        assert(self@.assignments =~= marked(s1, k as int, AssignmentStatus::Failed).assignments);
                    }
                    lemma_close_slice_wf(s0, k as int, AssignmentStatus::Failed);
                    lemma_promote_wf(self@, jp as int, TaskStatus::Failed, TerminalResultView::Error(msg@));
                }
                self.promote(jp, TaskStatus::Failed, TerminalResult::Error(msg));
                Ok(SliceVerdict::Failed)
            },
            SliceOutcome::Success(body) => {
                let merged_memory = match &self.active[jp].result {
                    None => Some(body),
                    Some(prev) => merge_memory(self.active[jp].mode, prev, &body),
                };
                match merged_memory {
                    None => {
                        self.assignments[k].status = AssignmentStatus::Failed;
                        let text = String::from_str(
                            "Memory of the slice does not merge with the result of the job",
                        );
                        proof {
                            assert(self@ == marked(s1, k as int, AssignmentStatus::Failed)) by {
                                assert(self@.assignments =~= marked(s1, k as int, AssignmentStatus::Failed).assignments);
                            }
                            lemma_close_slice_wf(s0, k as int, AssignmentStatus::Failed);
                            lemma_promote_wf(self@, jp as int, TaskStatus::Failed, TerminalResultView::Error(text@));
                        }
                        self.promote(jp, TaskStatus::Failed, TerminalResult::Error(text));
                        Ok(SliceVerdict::Failed)
                    },
                    Some(m) => {
                        self.assignments[k].status = AssignmentStatus::Succeeded;
                        proof {
                            assert(self@ == marked(s1, k as int, AssignmentStatus::Succeeded)) by {
                                assert(self@.assignments =~= marked(s1, k as int, AssignmentStatus::Succeeded).assignments);
                            }
                            lemma_close_slice_wf(s0, k as int, AssignmentStatus::Succeeded);
                        }
                        let exec = self.active[jp].exec_shots;
                        let shots = self.active[jp].shots;
                        if exec >= shots || a.shots >= shots - exec {
                            proof {
                                lemma_promote_wf(self@, jp as int, TaskStatus::Succeeded, TerminalResultView::Memory(m@));
                            }
                            self.promote(jp, TaskStatus::Succeeded, TerminalResult::Memory(m));
                            Ok(SliceVerdict::Succeeded)
                        } else {
                            let ghost s2 = self@;
                            let v = self.active[jp].v_exec_shots;
                            let nv = if v > u64::MAX - (a.shots as u64) {
                                u64::MAX
                            } else {
                                v + (a.shots as u64)
                            };
                            proof {
                                lemma_progress_wf(s2, jp as int, a.shots, m@, now);
                            }
                            let ghost mv = m@;
                            self.active[jp].exec_shots = exec + a.shots;
                            self.active[jp].v_exec_shots = nv;
                            self.active[jp].result = Some(m);
                            self.active[jp].status = TaskActiveStatus::Waiting;
                            self.active[jp].updated_time = now;
                            proof {
                                assert(self@.active =~= progressed(s2, jp as int, a.shots, mv, now).active);
                            }
                            Ok(SliceVerdict::Continued)
                        }
                    },
                }
            },
        }
    }

    /// Completes a running assignment at the current time; see
    /// [`Store::finish_slice_at`].
    pub fn finish_slice(&mut self, assignment_id: u128, outcome: SliceOutcome) -> (r: Result<
        SliceVerdict,
        SchedError,
    >)
        requires
            old(self)@.wf(),
        ensures
            final(self)@.wf(),
            r is Err <==> !in_flight(old(self)@, assignment_id),
            r is Err ==> final(self)@ == old(self)@,
            r matches Ok(v) ==> exists|now: i64|
                (final(self)@, v) == #[trigger] finished(
                    old(self)@,
                    assignment_pos(old(self)@.assignments, assignment_id),
                    outcome@,
                    now,
                ),
    {
        let now = now_micros();
        let ghost before = self@;
        let ghost o = outcome@;
        let r = self.finish_slice_at(assignment_id, outcome, now);
        proof {
            let _ = finished(before, assignment_pos(before.assignments, assignment_id), o, now);
        }
        r
    }
}

pub open spec fn of_task(id: u128) -> spec_fn(Assignment) -> bool {
    |a: Assignment| a.task_id == id
}

pub open spec fn of_agent(id: u128) -> spec_fn(Assignment) -> bool {
    |a: Assignment| a.agent_id == id
}

impl Store {
    /// The assignments of job `task_id`, in the order they were made.
    pub fn get_assignment_by_task(&self, task_id: u128) -> (r: Vec<Assignment>)
        ensures
            r@ == self@.assignments.filter(of_task(task_id)),
    {
        let ghost all = self@.assignments;
        let mut out: Vec<Assignment> = Vec::new();
        let mut k: usize = 0;
        while k < self.assignments.len()
            invariant
                k <= self.assignments.len(),
                all == self@.assignments,
                out@ == all.take(k as int).filter(of_task(task_id)),
            decreases self.assignments.len() - k,
        {
            proof {
                reveal(Seq::filter);
                assert(all.take(k + 1).drop_last() =~= all.take(k as int));
                assert(all.take(k + 1).last() == all[k as int]);
            }
            if self.assignments[k].task_id == task_id {
                out.push(self.assignments[k]);
            }
            k = k + 1;
        }
        assert(all.take(k as int) =~= all);
        out
    }

    /// The assignments sent to agent `agent_id`, in the order they were made.
    pub fn get_assignment_by_agent(&self, agent_id: u128) -> (r: Vec<Assignment>)
        ensures
            r@ == self@.assignments.filter(of_agent(agent_id)),
    {
        let ghost all = self@.assignments;
        let mut out: Vec<Assignment> = Vec::new();
        let mut k: usize = 0;
        while k < self.assignments.len()
            invariant
                k <= self.assignments.len(),
                all == self@.assignments,
                out@ == all.take(k as int).filter(of_agent(agent_id)),
            decreases self.assignments.len() - k,
        {
            proof {
                reveal(Seq::filter);
                assert(all.take(k + 1).drop_last() =~= all.take(k as int));
                assert(all.take(k + 1).last() == all[k as int]);
            }
            if self.assignments[k].agent_id == agent_id {
                out.push(self.assignments[k]);
            }
            k = k + 1;
        }
        assert(all.take(k as int) =~= all);
        out
    }
}

} // verus!
