use crate::memory::{Memory, MemoryView};
use crate::model::{AgentStatus, AssignmentStatus, TaskActiveStatus, TaskMode, TaskStatus};
use vstd::prelude::*;

verus! {

/// A job that is still waiting for or running its shots.
#[derive(Debug)]
pub struct Job {
    pub id: u128,
    pub source: String,
    pub qubits: u32,
    pub depth: u32,
    pub shots: u32,
    pub exec_shots: u32,
    pub v_exec_shots: u64,
    pub mode: Option<TaskMode>,
    pub result: Option<Memory>,
    pub status: TaskActiveStatus,
    pub created_time: i64,
    pub updated_time: i64,
}

pub struct JobView {
    pub id: u128,
    pub source: Seq<char>,
    pub qubits: u32,
    pub depth: u32,
    pub shots: u32,
    pub exec_shots: u32,
    pub v_exec_shots: u64,
    pub mode: Option<TaskMode>,
    pub result: Option<MemoryView>,
    pub status: TaskActiveStatus,
    pub created_time: i64,
    pub updated_time: i64,
}

pub open spec fn opt_memory_view(m: Option<Memory>) -> Option<MemoryView> {
    match m {
        Some(x) => Some(x@),
        None => None,
    }
}

impl View for Job {
    type V = JobView;

    open spec fn view(&self) -> JobView {
        JobView {
            id: self.id,
            source: self.source@,
            qubits: self.qubits,
            depth: self.depth,
            shots: self.shots,
            exec_shots: self.exec_shots,
            v_exec_shots: self.v_exec_shots,
            mode: self.mode,
            result: opt_memory_view(self.result),
            status: self.status,
            created_time: self.created_time,
            updated_time: self.updated_time,
        }
    }
}

/// What a finished job carries: the merged `Memory`, or the reason it failed.
#[derive(Debug)]
pub enum TerminalResult {
    Memory(Memory),
    Error(String),
}

pub enum TerminalResultView {
    Memory(MemoryView),
    Error(Seq<char>),
}

impl View for TerminalResult {
    type V = TerminalResultView;

    open spec fn view(&self) -> TerminalResultView {
        match self {
            TerminalResult::Memory(m) => TerminalResultView::Memory(m@),
            TerminalResult::Error(e) => TerminalResultView::Error(e@),
        }
    }
}

/// A job that has succeeded or failed; its result no longer changes.
#[derive(Debug)]
pub struct TerminalJob {
    pub id: u128,
    pub source: String,
    pub qubits: u32,
    pub depth: u32,
    pub shots: u32,
    pub mode: Option<TaskMode>,
    pub result: TerminalResult,
    pub status: TaskStatus,
    pub created_time: i64,
    pub updated_time: i64,
}

pub struct TerminalJobView {
    pub id: u128,
    pub source: Seq<char>,
    pub qubits: u32,
    pub depth: u32,
    pub shots: u32,
    pub mode: Option<TaskMode>,
    pub result: TerminalResultView,
    pub status: TaskStatus,
    pub created_time: i64,
    pub updated_time: i64,
}

impl View for TerminalJob {
    type V = TerminalJobView;

    open spec fn view(&self) -> TerminalJobView {
        TerminalJobView {
            id: self.id,
            source: self.source@,
            qubits: self.qubits,
            depth: self.depth,
            shots: self.shots,
            mode: self.mode,
            result: self.result@,
            status: self.status,
            created_time: self.created_time,
            updated_time: self.updated_time,
        }
    }
}

/// A remote executor and its qubit accounting.
#[derive(Debug)]
pub struct Agent {
    pub id: u128,
    pub ip: String,
    pub port: u32,
    pub qubit_count: u32,
    pub qubit_idle: u32,
    pub circuit_depth: u32,
    pub status: AgentStatus,
}

pub struct AgentView {
    pub id: u128,
    pub ip: Seq<char>,
    pub port: u32,
    pub qubit_count: u32,
    pub qubit_idle: u32,
    pub circuit_depth: u32,
    pub status: AgentStatus,
}

impl View for Agent {
    type V = AgentView;

    open spec fn view(&self) -> AgentView {
        AgentView {
            id: self.id,
            ip: self.ip@,
            port: self.port,
            qubit_count: self.qubit_count,
            qubit_idle: self.qubit_idle,
            circuit_depth: self.circuit_depth,
            status: self.status,
        }
    }
}

/// The record of one slice sent to one agent; `qubits` is what it holds
/// reserved on that agent while it runs.
#[derive(PartialEq, Eq, Structural, Clone, Copy, Debug)]
pub struct Assignment {
    pub id: u128,
    pub task_id: u128,
    pub agent_id: u128,
    pub shots: u32,
    pub qubits: u32,
    pub status: AssignmentStatus,
}

/// The tables of the scheduler: active jobs, terminal jobs, agents and the
/// assignment log.
#[derive(Debug)]
pub struct Store {
    pub active: Vec<Job>,
    pub terminal: Vec<TerminalJob>,
    pub agents: Vec<Agent>,
    pub assignments: Vec<Assignment>,
}

pub struct StoreView {
    pub active: Seq<JobView>,
    pub terminal: Seq<TerminalJobView>,
    pub agents: Seq<AgentView>,
    pub assignments: Seq<Assignment>,
}

impl View for Store {
    type V = StoreView;

    open spec fn view(&self) -> StoreView {
        StoreView {
            active: self.active@.map_values(|j: Job| j@),
            terminal: self.terminal@.map_values(|j: TerminalJob| j@),
            agents: self.agents@.map_values(|a: Agent| a@),
            assignments: self.assignments@,
        }
    }
}

/// Qubits held on `agent` by the running assignments of `log`.
pub open spec fn reserved(log: Seq<Assignment>, agent: u128) -> int
    decreases log.len(),
{
    if log.len() == 0 {
        0
    } else {
        let a = log.last();
        reserved(log.drop_last(), agent) + if a.agent_id == agent && a.status
            == AssignmentStatus::Running {
            a.qubits as int
        } else {
            0
        }
    }
}

pub open spec fn holds(a: Assignment, agent: u128) -> int {
    if a.agent_id == agent && a.status == AssignmentStatus::Running {
        a.qubits as int
    } else {
        0
    }
}

pub proof fn lemma_reserved_push(log: Seq<Assignment>, a: Assignment, agent: u128)
    ensures
        reserved(log.push(a), agent) == reserved(log, agent) + holds(a, agent),
{
    assert(log.push(a).drop_last() =~= log);
}

pub proof fn lemma_reserved_update(log: Seq<Assignment>, i: int, a: Assignment, agent: u128)
    requires
        0 <= i < log.len(),
    ensures
        reserved(log.update(i, a), agent) == reserved(log, agent) - holds(log[i], agent) + holds(
            a,
            agent,
        ),
    decreases log.len(),
{
    let d = log.update(i, a);
    if i < log.len() - 1 {
        assert(d.drop_last() =~= log.drop_last().update(i, a));
        lemma_reserved_update(log.drop_last(), i, a, agent);
    } else {
        assert(d.drop_last() =~= log.drop_last());
    }
}

pub proof fn lemma_reserved_nonneg(log: Seq<Assignment>, agent: u128)
    ensures
        reserved(log, agent) >= 0,
    decreases log.len(),
{
    if log.len() > 0 {
        lemma_reserved_nonneg(log.drop_last(), agent);
    }
}

/// No running assignment holds qubits on `agent`.
pub proof fn lemma_reserved_zero(log: Seq<Assignment>, agent: u128)
    requires
        forall|k: int| 0 <= k < log.len() ==> (#[trigger] log[k]).agent_id != agent,
    ensures
        reserved(log, agent) == 0,
    decreases log.len(),
{
    if log.len() > 0 {
        lemma_reserved_zero(log.drop_last(), agent);
    }
}

pub open spec fn has_job(s: Seq<JobView>, id: u128) -> bool {
    exists|i: int| 0 <= i < s.len() && s[i].id == id
}

pub open spec fn job_pos(s: Seq<JobView>, id: u128) -> int {
    choose|i: int| 0 <= i < s.len() && s[i].id == id
}

pub open spec fn has_terminal(s: Seq<TerminalJobView>, id: u128) -> bool {
    exists|i: int| 0 <= i < s.len() && s[i].id == id
}

pub open spec fn has_agent(s: Seq<AgentView>, id: u128) -> bool {
    exists|i: int| 0 <= i < s.len() && s[i].id == id
}

pub open spec fn agent_pos(s: Seq<AgentView>, id: u128) -> int {
    choose|i: int| 0 <= i < s.len() && s[i].id == id
}

pub open spec fn has_assignment(s: Seq<Assignment>, id: u128) -> bool {
    exists|i: int| 0 <= i < s.len() && s[i].id == id
}

pub open spec fn assignment_pos(s: Seq<Assignment>, id: u128) -> int {
    choose|i: int| 0 <= i < s.len() && s[i].id == id
}

pub open spec fn ids_distinct(s: Seq<JobView>) -> bool {
    forall|i: int, j: int| 0 <= i < j < s.len() ==> #[trigger] s[i].id != #[trigger] s[j].id
}

/// With distinct ids, the position of a job is the one holding its id.
pub proof fn lemma_job_pos(s: Seq<JobView>, id: u128, i: int)
    requires
        ids_distinct(s),
        0 <= i < s.len(),
        s[i].id == id,
    ensures
        has_job(s, id),
        job_pos(s, id) == i,
{
    let p = job_pos(s, id);
    assert(0 <= p < s.len() && s[p].id == id);
    if p < i {
        assert(s[p].id != s[i].id);
    } else if i < p {
        assert(s[i].id != s[p].id);
    }
}

/// A running assignment holds no more than what its agent has lent out.
pub proof fn lemma_reserved_covers(log: Seq<Assignment>, k: int, agent: u128)
    requires
        0 <= k < log.len(),
    ensures
        reserved(log, agent) >= holds(log[k], agent),
    decreases log.len(),
{
    if k < log.len() - 1 {
        lemma_reserved_covers(log.drop_last(), k, agent);
        assert(log.drop_last()[k] == log[k]);
    } else {
        lemma_reserved_nonneg(log.drop_last(), agent);
    }
}

impl StoreView {
    /// Every active job has run no more shots than it asked for, and fewer:
    /// a job whose shots are all done has left the active table.
    pub open spec fn shots_within_bounds(self) -> bool {
        forall|i: int|
            0 <= i < self.active.len() ==> 0 <= #[trigger] self.active[i].exec_shots
                < self.active[i].shots
    }

    /// Every agent has at most its capacity idle.
    pub open spec fn idle_within_capacity(self) -> bool {
        forall|i: int|
            0 <= i < self.agents.len() ==> 0 <= #[trigger] self.agents[i].qubit_idle
                <= self.agents[i].qubit_count
    }

    /// On every agent, the qubits held by running assignments are exactly
    /// the qubits that are not idle.
    pub open spec fn reservations_match(self) -> bool {
        forall|i: int|
            0 <= i < self.agents.len() ==> reserved(self.assignments, #[trigger] self.agents[i].id)
                == self.agents[i].qubit_count - self.agents[i].qubit_idle
    }

    /// No job is both active and terminal.
    pub open spec fn tables_disjoint(self) -> bool {
        forall|i: int, j: int|
            0 <= i < self.active.len() && 0 <= j < self.terminal.len() ==> #[trigger] self.active[i].id
                != #[trigger] self.terminal[j].id
    }

    pub open spec fn keys_unique(self) -> bool {
        &&& forall|i: int, j: int|
            0 <= i < j < self.active.len() ==> #[trigger] self.active[i].id != #[trigger] self.active[j].id
        &&& forall|i: int, j: int|
            0 <= i < j < self.terminal.len() ==> #[trigger] self.terminal[i].id
                != #[trigger] self.terminal[j].id
        &&& forall|i: int, j: int|
            0 <= i < j < self.agents.len() ==> #[trigger] self.agents[i].id != #[trigger] self.agents[j].id
        &&& forall|i: int, j: int|
            0 <= i < j < self.assignments.len() ==> #[trigger] self.assignments[i].id
                != #[trigger] self.assignments[j].id
    }

    /// No two agents share an address.
    pub open spec fn addresses_unique(self) -> bool {
        forall|i: int, j: int|
            0 <= i < j < self.agents.len() ==> !(#[trigger] self.agents[i].ip == #[trigger] self.agents[j].ip
                && self.agents[i].port == self.agents[j].port)
    }

    /// A running assignment belongs to a running active job that has room for
    /// its slice, and holds that job's qubits; a job has at most one.
    pub open spec fn slices_consistent(self) -> bool {
        &&& forall|k: int|
            0 <= k < self.assignments.len() && (#[trigger] self.assignments[k]).status
                == AssignmentStatus::Running ==> {
                let a = self.assignments[k];
                &&& has_job(self.active, a.task_id)
                &&& self.active[job_pos(self.active, a.task_id)].status == TaskActiveStatus::Running
                &&& self.active[job_pos(self.active, a.task_id)].exec_shots + a.shots
                    <= self.active[job_pos(self.active, a.task_id)].shots
                &&& a.shots >= 1
                &&& a.qubits == self.active[job_pos(self.active, a.task_id)].qubits
            }
        &&& forall|k: int, l: int|
            0 <= k < l < self.assignments.len() && (#[trigger] self.assignments[k]).status
                == AssignmentStatus::Running && (#[trigger] self.assignments[l]).status
                == AssignmentStatus::Running ==> self.assignments[k].task_id
                != self.assignments[l].task_id
    }

    pub open spec fn wf(self) -> bool {
        &&& self.keys_unique()
        &&& self.shots_within_bounds()
        &&& self.idle_within_capacity()
        &&& self.reservations_match()
        &&& self.tables_disjoint()
        &&& self.addresses_unique()
        &&& self.slices_consistent()
    }
}

impl Store {
    /// An empty store.
    pub fn new() -> (r: Store)
        ensures
            r@.active.len() == 0,
            r@.terminal.len() == 0,
            r@.agents.len() == 0,
            r@.assignments.len() == 0,
            r@.wf(),
    {
        Store { active: Vec::new(), terminal: Vec::new(), agents: Vec::new(), assignments: Vec::new() }
    }
}

} // verus!
