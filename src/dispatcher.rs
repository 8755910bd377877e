use crate::ids::new_uuid;
use crate::model::{AssignmentStatus, TaskActiveStatus, TaskMode};
use crate::laws::lemma_round_launches;
use crate::queue::{lemma_top_waiting_in_range, top_waiting};
use crate::registry::{eligible, lemma_least_idle_in_range, least_idle};
use crate::store::{
    has_assignment, has_job, holds, ids_distinct, job_pos, lemma_job_pos,
    lemma_reserved_push, reserved, AgentView, Assignment, JobView, Store, StoreView,
};
use vstd::prelude::*;

verus! {

/// Settings of the scheduler. `sched_min_depth` and `sched_min_gran` set the
/// slice size; the rest tells the service where to listen and what to read.
#[derive(Debug)]
pub struct QSchedulerConfig {
    pub sched_min_gran: u32,
    pub sched_min_depth: u32,
    pub listen_ip: String,
    pub listen_port: u32,
    pub db_url: String,
    pub agent_file: String,
}

impl Default for QSchedulerConfig {
    fn default() -> (r: QSchedulerConfig)
        ensures
            r.sched_min_gran == 200,
            r.sched_min_depth == 10,
            r.listen_ip@ == "0.0.0.0"@,
            r.listen_port == 3000,
            r.db_url@ == ""@,
            r.agent_file@ == ""@,
    {
        QSchedulerConfig {
            sched_min_gran: 200,
            sched_min_depth: 10,
            listen_ip: String::from_str("0.0.0.0"),
            listen_port: 3000,
            db_url: String::from_str(""),
            agent_file: String::from_str(""),
        }
    }
}

/// Shots of one slice of a job of depth `depth` with `remaining` shots to
/// go: `floor(min_depth / depth * min_gran)`, at most `remaining` and at
/// least one. A depth of zero asks for all remaining shots at once.
pub open spec fn slice_size(min_depth: u32, min_gran: u32, depth: u32, remaining: int) -> int {
    let raw: int = if depth == 0 {
        remaining
    } else {
        (min_depth * min_gran) / (depth as int)
    };
    if raw < 1 {
        1
    } else if raw > remaining {
        remaining
    } else {
        raw
    }
}

/// Number of shots for the next slice of a job that has run `exec_shots`
/// of its `shots`.
pub fn slice_shots(min_depth: u32, min_gran: u32, depth: u32, shots: u32, exec_shots: u32) -> (r:
    u32)
    requires
        exec_shots < shots,
    ensures
        r == slice_size(min_depth, min_gran, depth, shots - exec_shots),
        1 <= r <= shots - exec_shots,
{
    let remaining = shots - exec_shots;
    if depth == 0 {
        return remaining;
    }
    let md = min_depth as u64;
    let mg = min_gran as u64;
    assert(md * mg <= u32::MAX * u32::MAX) by (nonlinear_arith)
        requires
            md <= u32::MAX,
            mg <= u32::MAX,
    ;
    let raw: u64 = md * mg / (depth as u64);
    if raw < 1 {
        1
    } else if raw > remaining as u64 {
        remaining
    } else {
        raw as u32
    }
}

/// What the service needs to send one slice to an agent.
#[derive(Debug)]
pub struct Launch {
    pub assignment_id: u128,
    pub task_id: u128,
    pub agent_id: u128,
    pub ip: String,
    pub port: u32,
    pub source: String,
    pub shots: u32,
    pub mode: Option<TaskMode>,
}

pub struct LaunchView {
    pub assignment_id: u128,
    pub task_id: u128,
    pub agent_id: u128,
    pub ip: Seq<char>,
    pub port: u32,
    pub source: Seq<char>,
    pub shots: u32,
    pub mode: Option<TaskMode>,
}

impl View for Launch {
    type V = LaunchView;

    open spec fn view(&self) -> LaunchView {
        LaunchView {
            assignment_id: self.assignment_id,
            task_id: self.task_id,
            agent_id: self.agent_id,
            ip: self.ip@,
            port: self.port,
            source: self.source@,
            shots: self.shots,
            mode: self.mode,
        }
    }
}

pub open spec fn launches_view(v: Seq<Launch>) -> Seq<LaunchView> {
    v.map_values(|l: Launch| l@)
}

pub open spec fn launch_shots(s: StoreView, jp: int, md: u32, mg: u32) -> u32 {
    let j = s.active[jp];
    slice_size(md, mg, j.depth, j.shots - j.exec_shots) as u32
}

/// The slice of the job at `jp` sent to the agent at `ap`.
pub open spec fn launch_of(s: StoreView, jp: int, ap: int, asg: u128, md: u32, mg: u32) -> LaunchView {
    let j = s.active[jp];
    let a = s.agents[ap];
    LaunchView {
        assignment_id: asg,
        task_id: j.id,
        agent_id: a.id,
        ip: a.ip,
        port: a.port,
        source: j.source,
        shots: launch_shots(s, jp, md, mg),
        mode: j.mode,
    }
}

/// The store after that slice is launched: the agent lends the job's qubits,
/// a running assignment records the slice, and the job is running.
pub open spec fn after_launch(s: StoreView, jp: int, ap: int, asg: u128, md: u32, mg: u32) -> StoreView {
    let j = s.active[jp];
    let a = s.agents[ap];
    StoreView {
        active: s.active.update(jp, JobView { status: TaskActiveStatus::Running, ..j }),
        agents: s.agents.update(ap, AgentView { qubit_idle: (a.qubit_idle - j.qubits) as u32, ..a }),
        assignments: s.assignments.push(
            Assignment {
                id: asg,
                task_id: j.id,
                agent_id: a.id,
                shots: launch_shots(s, jp, md, mg),
                qubits: j.qubits,
                status: AssignmentStatus::Running,
            },
        ),
        terminal: s.terminal,
    }
}

/// One dispatch round with assignment ids `ids`: while an id is left, take
/// the waiting job that goes first and the tightest running agent that fits
/// it, and launch a slice; stop at the first job no agent fits, or at an id
/// that is taken.
pub open spec fn round(s: StoreView, md: u32, mg: u32, ids: Seq<u128>) -> (StoreView, Seq<LaunchView>)
    decreases ids.len(),
{
    if ids.len() == 0 {
        (s, Seq::empty())
    } else {
        match top_waiting(s.active) {
            None => (s, Seq::empty()),
            Some(jp) => match least_idle(s.agents, s.active[jp].qubits, s.active[jp].depth) {
                None => (s, Seq::empty()),
                Some(ap) => if has_assignment(s.assignments, ids[0]) {
                    (s, Seq::empty())
                } else {
                    let rest = round(after_launch(s, jp, ap, ids[0], md, mg), md, mg, ids.drop_first());
                    (rest.0, seq![launch_of(s, jp, ap, ids[0], md, mg)] + rest.1)
                },
            },
        }
    }
}

/// Launching a waiting job on an agent that fits it keeps the store well
/// formed.
pub proof fn lemma_launch_wf(s: StoreView, jp: int, ap: int, asg: u128, md: u32, mg: u32)
    requires
        s.wf(),
        0 <= jp < s.active.len(),
        0 <= ap < s.agents.len(),
        s.active[jp].status == TaskActiveStatus::Waiting,
        eligible(s.agents[ap], s.active[jp].qubits, s.active[jp].depth),
        !has_assignment(s.assignments, asg),
    ensures
        after_launch(s, jp, ap, asg, md, mg).wf(),
{
    let t = after_launch(s, jp, ap, asg, md, mg);
    let j = s.active[jp];
    let a = s.agents[ap];
    let n = launch_shots(s, jp, md, mg);
    let na = t.assignments.last();
    assert(ids_distinct(s.active)) by {
        assert(s.keys_unique());
    }
    assert(ids_distinct(t.active)) by {
        assert forall|x: int, y: int| 0 <= x < y < t.active.len() implies #[trigger] t.active[x].id
            != #[trigger] t.active[y].id by {
            assert(s.active[x].id != s.active[y].id);
        }
    }
    assert(t.keys_unique()) by {
        assert forall|x: int, y: int| 0 <= x < y < t.agents.len() implies #[trigger] t.agents[x].id
            != #[trigger] t.agents[y].id by {
            assert(s.agents[x].id != s.agents[y].id);
        }
        assert forall|x: int, y: int| 0 <= x < y < t.assignments.len() implies #[trigger] t.assignments[x].id
            != #[trigger] t.assignments[y].id by {
            if y == s.assignments.len() {
                assert(s.assignments[x].id != asg);
            } else {
                assert(s.assignments[x].id != s.assignments[y].id);
            }
        }
    }
    assert(t.shots_within_bounds()) by {
        assert forall|x: int| 0 <= x < t.active.len() implies 0 <= #[trigger] t.active[x].exec_shots
            < t.active[x].shots by {
            assert(s.active[x].exec_shots < s.active[x].shots);
        }
    }
    assert(t.idle_within_capacity()) by {
        assert forall|x: int| 0 <= x < t.agents.len() implies 0 <= #[trigger] t.agents[x].qubit_idle
            <= t.agents[x].qubit_count by {
            assert(s.agents[x].qubit_idle <= s.agents[x].qubit_count);
        }
    }
    assert(t.reservations_match()) by {
        assert forall|x: int| 0 <= x < t.agents.len() implies reserved(
            t.assignments,
            #[trigger] t.agents[x].id,
        ) == t.agents[x].qubit_count - t.agents[x].qubit_idle by {
            lemma_reserved_push(s.assignments, na, s.agents[x].id);
            assert(reserved(s.assignments, s.agents[x].id) == s.agents[x].qubit_count
                - s.agents[x].qubit_idle);
            if x != ap {
                if x < ap {
                    assert(s.agents[x].id != s.agents[ap].id);
                } else {
                    assert(s.agents[ap].id != s.agents[x].id);
                }
                assert(holds(na, s.agents[x].id) == 0);
            }
        }
    }
    assert(t.tables_disjoint()) by {
        assert forall|x: int, y: int| 0 <= x < t.active.len() && 0 <= y < t.terminal.len() implies #[trigger] t.active[x].id
            != #[trigger] t.terminal[y].id by {
            assert(s.active[x].id != s.terminal[y].id);
        }
    }
    assert(t.addresses_unique()) by {
        assert forall|x: int, y: int| 0 <= x < y < t.agents.len() implies !(#[trigger] t.agents[x].ip
            == #[trigger] t.agents[y].ip && t.agents[x].port == t.agents[y].port) by {
            assert(!(s.agents[x].ip == s.agents[y].ip && s.agents[x].port == s.agents[y].port));
        }
    }
    assert(t.slices_consistent()) by {
        lemma_job_pos(t.active, j.id, jp);
        assert forall|k: int|
            0 <= k < t.assignments.len() && (#[trigger] t.assignments[k]).status
                == AssignmentStatus::Running implies {
                let b = t.assignments[k];
                &&& has_job(t.active, b.task_id)
                &&& t.active[job_pos(t.active, b.task_id)].status == TaskActiveStatus::Running
                &&& t.active[job_pos(t.active, b.task_id)].exec_shots + b.shots
                    <= t.active[job_pos(t.active, b.task_id)].shots
                &&& b.shots >= 1
                &&& b.qubits == t.active[job_pos(t.active, b.task_id)].qubits
            } by {
            if k < s.assignments.len() {
                let b = s.assignments[k];
                let p = job_pos(s.active, b.task_id);
                assert(s.active[p].status == TaskActiveStatus::Running);
                assert(p != jp);
                lemma_job_pos(t.active, b.task_id, p);
            }
        }
        assert forall|k: int, l: int|
            0 <= k < l < t.assignments.len() && (#[trigger] t.assignments[k]).status
                == AssignmentStatus::Running && (#[trigger] t.assignments[l]).status
                == AssignmentStatus::Running implies t.assignments[k].task_id
            != t.assignments[l].task_id by {
            if l == s.assignments.len() {
                let b = s.assignments[k];
                let p = job_pos(s.active, b.task_id);
                assert(s.active[p].status == TaskActiveStatus::Running);
                if b.task_id == j.id {
                    lemma_job_pos(s.active, j.id, jp);
                }
            } else {
                assert(s.assignments[k].task_id != s.assignments[l].task_id);
            }
        }
    }
}

impl Store {
    /// Whether some assignment has id `id`.
    pub fn assignment_id_taken(&self, id: u128) -> (r: bool)
        ensures
            r == has_assignment(self@.assignments, id),
    {
        let mut k: usize = 0;
        while k < self.assignments.len()
            invariant
                k <= self.assignments.len(),
                forall|t: int| 0 <= t < k ==> self@.assignments[t].id != id,
            decreases self.assignments.len() - k,
        {
            if self.assignments[k].id == id {
                return true;
            }
            k = k + 1;
        }
        false
    }

    fn launch_at(&mut self, md: u32, mg: u32, jp: usize, ap: usize, asg: u128) -> (l: Launch)
        requires
            old(self)@.wf(),
            jp < old(self)@.active.len(),
            ap < old(self)@.agents.len(),
            old(self)@.active[jp as int].status == TaskActiveStatus::Waiting,
            eligible(
                old(self)@.agents[ap as int],
                old(self)@.active[jp as int].qubits,
                old(self)@.active[jp as int].depth,
            ),
            !has_assignment(old(self)@.assignments, asg),
        ensures
            final(self)@ == after_launch(old(self)@, jp as int, ap as int, asg, md, mg),
            l@ == launch_of(old(self)@, jp as int, ap as int, asg, md, mg),
            final(self)@.wf(),
    {
        let ghost before = self@;
        proof {
            assert(before.active[jp as int] == self.active@[jp as int]@);
            assert(before.agents[ap as int] == self.agents@[ap as int]@);
            assert(before.active[jp as int].exec_shots < before.active[jp as int].shots);
            lemma_launch_wf(before, jp as int, ap as int, asg, md, mg);
        }
        let qubits = self.active[jp].qubits;
        let n = slice_shots(md, mg, self.active[jp].depth, self.active[jp].shots, self.active[jp].exec_shots);
        let task_id = self.active[jp].id;
        let agent_id = self.agents[ap].id;
        let idle = self.agents[ap].qubit_idle - qubits;
        self.agents[ap].qubit_idle = idle;
        self.active[jp].status = TaskActiveStatus::Running;
        self.assignments.push(
            Assignment {
                id: asg,
                task_id,
                agent_id,
                shots: n,
                qubits,
                status: AssignmentStatus::Running,
            },
        );
        let l = Launch {
            assignment_id: asg,
            task_id,
            agent_id,
            ip: self.agents[ap].ip.clone(),
            port: self.agents[ap].port,
            source: self.active[jp].source.clone(),
            shots: n,
            mode: self.active[jp].mode,
        };
        proof {
            let t = after_launch(before, jp as int, ap as int, asg, md, mg);
            assert(self@.active =~= t.active);
            assert(self@.agents =~= t.agents);
            assert(self@.assignments =~= t.assignments);
        }
        l
    }

    /// One dispatch round, with the assignment ids to use in order: see
    /// [`round`]. Returns the slices launched, for the service to send.
    pub fn dispatch_round_with(&mut self, cfg: &QSchedulerConfig, ids: &Vec<u128>) -> (r: Vec<Launch>)
        requires
            old(self)@.wf(),
        ensures
            final(self)@.wf(),
            (final(self)@, launches_view(r@)) == round(
                old(self)@,
                cfg.sched_min_depth,
                cfg.sched_min_gran,
                ids@,
            ),
    {
        let md = cfg.sched_min_depth;
        let mg = cfg.sched_min_gran;
        let ghost start = self@;
        let mut out: Vec<Launch> = Vec::new();
        let mut k: usize = 0;
        let mut stopped = false;
        proof {
            assert(ids@.skip(0) =~= ids@);
            let r0 = round(start, md, mg, ids@);
            assert(launches_view(out@) + r0.1 =~= r0.1);
        }
        while k < ids.len() && !stopped
            invariant
                k <= ids.len(),
                self@.wf(),
                md == cfg.sched_min_depth,
                mg == cfg.sched_min_gran,
                round(start, md, mg, ids@) == (
                    round(self@, md, mg, ids@.skip(k as int)).0,
                    launches_view(out@) + round(self@, md, mg, ids@.skip(k as int)).1,
                ),
                stopped ==> round(self@, md, mg, ids@.skip(k as int)) == (
                    self@,
                    Seq::<LaunchView>::empty(),
                ),
            decreases ids.len() - k + (if stopped { 0int } else { 1int }),
        {
            let ghost cur = self@;
            let ghost rest = ids@.skip(k as int);
            assert(rest.len() > 0);
            assert(rest[0] == ids@[k as int]);
            assert(rest.drop_first() =~= ids@.skip(k + 1));
            let top = self.top_waiting_position();
            if top.is_none() {
                stopped = true;
            } else {
                let jp = top.unwrap();
                proof {
                    lemma_top_waiting_in_range(cur.active);
                    assert(cur.active[jp as int] == self.active@[jp as int]@);
                }
                let fit = self.least_idle_position(self.active[jp].qubits, self.active[jp].depth);
                if fit.is_none() {
                    stopped = true;
                } else {
                    let ap = fit.unwrap();
                    proof {
                        lemma_least_idle_in_range(
                            cur.agents,
                            cur.active[jp as int].qubits,
                            cur.active[jp as int].depth,
                        );
                    }
                    if self.assignment_id_taken(ids[k]) {
                        stopped = true;
                    } else {
                        let l = self.launch_at(md, mg, jp, ap, ids[k]);
                        let ghost lv = l@;
                        out.push(l);
                        proof {
                            let tail = round(self@, md, mg, ids@.skip(k + 1));
                            assert(launches_view(out@) =~= launches_view(out@.drop_last()).push(lv));
                            assert(launches_view(out@) + tail.1 =~= launches_view(out@.drop_last()) + (
                            seq![lv] + tail.1));
                        }
                        k = k + 1;
                    }
                }
            }
        }
        proof {
            if !stopped {
                assert(ids@.skip(k as int).len() == 0);
            }
            assert(launches_view(out@) + Seq::<LaunchView>::empty() =~= launches_view(out@));
        }
        out
    }

    /// One dispatch round with fresh random assignment ids, one for each job
    /// that waits; see [`round`].
    pub fn dispatch_round(&mut self, cfg: &QSchedulerConfig) -> (r: Vec<Launch>)
        requires
            old(self)@.wf(),
        ensures
            final(self)@.wf(),
            exists|ids: Seq<u128>|
                ids.len() == old(self)@.active.len() && (final(self)@, launches_view(r@))
                    == #[trigger] round(old(self)@, cfg.sched_min_depth, cfg.sched_min_gran, ids),
            old(self)@.assignments.len() == 0 && top_waiting(old(self)@.active) is Some && least_idle(
                old(self)@.agents,
                old(self)@.active[top_waiting(old(self)@.active)->0].qubits,
                old(self)@.active[top_waiting(old(self)@.active)->0].depth,
            ) is Some ==> r@.len() >= 1,
    {
        let ghost before = self@;
        let mut ids: Vec<u128> = Vec::new();
        let mut i: usize = 0;
        while i < self.active.len()
            invariant
                i <= self.active.len(),
                ids@.len() == i,
            decreases self.active.len() - i,
        {
            ids.push(new_uuid());
            i = i + 1;
        }
        proof {
            lemma_top_waiting_in_range(before.active);
            if before.assignments.len() == 0 && top_waiting(before.active) is Some && least_idle(
                before.agents,
                before.active[top_waiting(before.active)->0].qubits,
                before.active[top_waiting(before.active)->0].depth,
            ) is Some {
                assert(ids@.len() > 0);
                assert(!has_assignment(before.assignments, ids@[0]));
                lemma_round_launches(before, cfg.sched_min_depth, cfg.sched_min_gran, ids@);
            }
        }
        let r = self.dispatch_round_with(cfg, &ids);
        proof {
            assert(launches_view(r@).len() == r@.len());
        }
        r
    }
}

} // verus!
