use crate::ids::new_uuid;
use crate::model::{AgentStatus, SchedError};
use crate::store::{
    has_agent, lemma_reserved_zero, reserved, agent_pos, Agent, AgentView, Store, StoreView,
};
use vstd::prelude::*;

verus! {

/// An agent to admit, as the operator describes it. `hostname` is resolved
/// to `ip` before admission.
#[derive(Debug)]
pub struct AgentInfo {
    pub ip: String,
    pub hostname: Option<String>,
    pub port: u32,
    pub qubit_count: u32,
    pub circuit_depth: u32,
}

/// The agents listed in a bootstrap file.
#[derive(Debug)]
pub struct Agents {
    pub agents: Vec<AgentInfo>,
}

/// An address to look agents up by; without a port every agent on the host
/// matches.
#[derive(Debug)]
pub struct AgentAddress {
    pub ip: String,
    pub hostname: Option<String>,
    pub port: Option<u32>,
}

/// Changes to apply to an agent once it is drained. Fields left `None` keep
/// their value.
#[derive(Debug)]
pub struct AgentInfoUpdate {
    pub id: u128,
    pub ip: Option<String>,
    pub port: Option<u32>,
    pub qubit_count: Option<u32>,
    pub circuit_depth: Option<u32>,
    pub status: Option<AgentStatus>,
}

/// Outcome of one attempt to apply a patch to a draining agent.
#[derive(PartialEq, Eq, Structural, Clone, Copy, Debug)]
pub enum DrainStep {
    /// Slices still hold qubits on the agent; nothing was changed.
    Pending,
    /// The agent was idle and the patch is applied.
    Applied,
}

pub open spec fn address_taken(s: Seq<AgentView>, ip: Seq<char>, port: u32) -> bool {
    exists|i: int| 0 <= i < s.len() && s[i].ip == ip && s[i].port == port
}

/// The id is held by an agent or named by an assignment.
pub open spec fn agent_id_in_use(s: StoreView, id: u128) -> bool {
    has_agent(s.agents, id) || exists|k: int|
        0 <= k < s.assignments.len() && s.assignments[k].agent_id == id
}

pub open spec fn admitted(info_ip: Seq<char>, port: u32, count: u32, depth: u32, id: u128) -> AgentView {
    AgentView {
        id,
        ip: info_ip,
        port,
        qubit_count: count,
        qubit_idle: count,
        circuit_depth: depth,
        status: AgentStatus::Running,
    }
}

/// The agent can take a job of `q` qubits and depth `d` now.
pub open spec fn eligible(a: AgentView, q: u32, d: u32) -> bool {
    a.status == AgentStatus::Running && a.qubit_idle >= q && a.circuit_depth >= d
}

/// Position of the eligible agent with the fewest idle qubits, the first such
/// one in table order among equals.
pub open spec fn least_idle(s: Seq<AgentView>, q: u32, d: u32) -> Option<int>
    decreases s.len(),
{
    if s.len() == 0 {
        None
    } else {
        let r = least_idle(s.drop_last(), q, d);
        let l = s.last();
        if eligible(l, q, d) && (r is None || l.qubit_idle < s[r->0].qubit_idle) {
            Some(s.len() - 1)
        } else {
            r
        }
    }
}

/// Position of the eligible agent with the most idle qubits, the first such
/// one in table order among equals.
pub open spec fn most_idle(s: Seq<AgentView>, q: u32, d: u32) -> Option<int>
    decreases s.len(),
{
    if s.len() == 0 {
        None
    } else {
        let r = most_idle(s.drop_last(), q, d);
        let l = s.last();
        if eligible(l, q, d) && (r is None || l.qubit_idle > s[r->0].qubit_idle) {
            Some(s.len() - 1)
        } else {
            r
        }
    }
}

/// Some agent is large enough, in qubits and in depth, for the job.
pub open spec fn capable_exists(s: Seq<AgentView>, q: u32, d: u32) -> bool {
    exists|i: int| 0 <= i < s.len() && s[i].qubit_count >= q && s[i].circuit_depth >= d
}

pub open spec fn patched(a: AgentView, ip: Option<Seq<char>>, port: Option<u32>, count: Option<u32>, depth: Option<u32>, status: AgentStatus) -> AgentView {
    let c = match count {
        Some(c) => c,
        None => a.qubit_count,
    };
    AgentView {
        id: a.id,
        ip: match ip {
            Some(x) => x,
            None => a.ip,
        },
        port: match port {
            Some(p) => p,
            None => a.port,
        },
        qubit_count: c,
        qubit_idle: c,
        circuit_depth: match depth {
            Some(x) => x,
            None => a.circuit_depth,
        },
        status,
    }
}

pub open spec fn opt_string_view(s: Option<String>) -> Option<Seq<char>> {
    match s {
        Some(x) => Some(x@),
        None => None,
    }
}

pub open spec fn on_host(ip: Seq<char>) -> spec_fn(AgentView) -> bool {
    |a: AgentView| a.ip == ip
}

pub open spec fn agent_refs_view(v: Seq<&Agent>) -> Seq<AgentView> {
    v.map_values(|a: &Agent| a@)
}

pub proof fn lemma_least_idle_in_range(s: Seq<AgentView>, q: u32, d: u32)
    ensures
        least_idle(s, q, d) matches Some(i) ==> 0 <= i < s.len() && eligible(s[i], q, d),
        least_idle(s, q, d) is None ==> forall|i: int| 0 <= i < s.len() ==> !eligible(#[trigger] s[i], q, d),
    decreases s.len(),
{
    if s.len() > 0 {
        lemma_least_idle_in_range(s.drop_last(), q, d);
        assert forall|i: int| 0 <= i < s.len() - 1 implies #[trigger] s[i] == s.drop_last()[i] by {}
    }
}

pub proof fn lemma_most_idle_in_range(s: Seq<AgentView>, q: u32, d: u32)
    ensures
        most_idle(s, q, d) matches Some(i) ==> 0 <= i < s.len() && eligible(s[i], q, d),
        most_idle(s, q, d) is None ==> forall|i: int| 0 <= i < s.len() ==> !eligible(#[trigger] s[i], q, d),
    decreases s.len(),
{
    if s.len() > 0 {
        lemma_most_idle_in_range(s.drop_last(), q, d);
        assert forall|i: int| 0 <= i < s.len() - 1 implies #[trigger] s[i] == s.drop_last()[i] by {}
    }
}

/// The agent `least_idle` picks has no more idle qubits than any eligible
/// agent, and fewer than every eligible agent before it.
pub proof fn lemma_least_idle_is_best_fit(s: Seq<AgentView>, q: u32, d: u32)
    ensures
        least_idle(s, q, d) matches Some(i) ==> (forall|j: int|
            0 <= j < s.len() && eligible(#[trigger] s[j], q, d) ==> s[i].qubit_idle <= s[j].qubit_idle
                && (j < i ==> s[i].qubit_idle < s[j].qubit_idle)),
    decreases s.len(),
{
    if s.len() > 0 {
        let f = s.drop_last();
        lemma_least_idle_is_best_fit(f, q, d);
        lemma_least_idle_in_range(f, q, d);
        lemma_least_idle_in_range(s, q, d);
        assert forall|i: int| 0 <= i < s.len() - 1 implies #[trigger] s[i] == f[i] by {}
    }
}

pub open spec fn opt_pos(o: Option<usize>) -> Option<int> {
    match o {
        Some(i) => Some(i as int),
        None => None,
    }
}

/// Another agent than the one at `pos` listens on `ip:port`.
pub open spec fn address_clash(s: Seq<AgentView>, pos: int, ip: Seq<char>, port: u32) -> bool {
    exists|j: int| 0 <= j < s.len() && j != pos && s[j].ip == ip && s[j].port == port
}

/// In a well-formed store no other agent shares an agent's address.
pub proof fn lemma_own_address_free(s: StoreView, i: int)
    requires
        s.wf(),
        0 <= i < s.agents.len(),
    ensures
        !address_clash(s.agents, i, s.agents[i].ip, s.agents[i].port),
{
    if address_clash(s.agents, i, s.agents[i].ip, s.agents[i].port) {
        let j = choose|j: int|
            0 <= j < s.agents.len() && j != i && s.agents[j].ip == s.agents[i].ip && s.agents[j].port
                == s.agents[i].port;
        if j < i {
            assert(!(s.agents[j].ip == s.agents[i].ip && s.agents[j].port == s.agents[i].port));
        } else {
            assert(!(s.agents[i].ip == s.agents[j].ip && s.agents[i].port == s.agents[j].port));
        }
    }
}

/// Replacing one agent keeps the store well formed when the id stays, the
/// qubits it has lent out stay, and its address stays its own.
pub proof fn lemma_agent_update_wf(s: StoreView, i: int, b: AgentView)
    requires
        s.wf(),
        0 <= i < s.agents.len(),
        b.id == s.agents[i].id,
        b.qubit_idle <= b.qubit_count,
        b.qubit_count - b.qubit_idle == s.agents[i].qubit_count - s.agents[i].qubit_idle,
        !address_clash(s.agents, i, b.ip, b.port),
    ensures
        (StoreView { agents: s.agents.update(i, b), ..s }).wf(),
{
    let t = StoreView { agents: s.agents.update(i, b), ..s };
    assert(t.keys_unique()) by {
        assert forall|x: int, y: int| 0 <= x < y < t.agents.len() implies #[trigger] t.agents[x].id
            != #[trigger] t.agents[y].id by {
            assert(s.agents[x].id != s.agents[y].id);
        }
    }
    assert(t.addresses_unique()) by {
        assert forall|x: int, y: int| 0 <= x < y < t.agents.len() implies !(
        #[trigger] t.agents[x].ip == #[trigger] t.agents[y].ip && t.agents[x].port
            == t.agents[y].port) by {
            if x == i {
                if t.agents[y].ip == b.ip && t.agents[y].port == b.port {
                    assert(address_clash(s.agents, i, b.ip, b.port));
                }
            } else if y == i {
                if t.agents[x].ip == b.ip && t.agents[x].port == b.port {
                    assert(address_clash(s.agents, i, b.ip, b.port));
                }
            } else {
                assert(!(s.agents[x].ip == s.agents[y].ip && s.agents[x].port == s.agents[y].port));
            }
        }
    }
    assert(t.reservations_match()) by {
        assert forall|x: int| 0 <= x < t.agents.len() implies reserved(
            t.assignments,
            #[trigger] t.agents[x].id,
        ) == t.agents[x].qubit_count - t.agents[x].qubit_idle by {
            assert(reserved(s.assignments, s.agents[x].id) == s.agents[x].qubit_count
                - s.agents[x].qubit_idle);
        }
    }
    assert(t.idle_within_capacity()) by {
        assert forall|x: int| 0 <= x < t.agents.len() implies 0 <= #[trigger] t.agents[x].qubit_idle
            <= t.agents[x].qubit_count by {
            assert(s.agents[x].qubit_idle <= s.agents[x].qubit_count);
        }
    }
}

impl Store {
    /// Position of the agent with id `id`.
    pub fn find_agent(&self, id: u128) -> (r: Option<usize>)
        requires
            self@.keys_unique(),
        ensures
            r is None <==> !has_agent(self@.agents, id),
            r matches Some(i) ==> i == agent_pos(self@.agents, id) && i < self@.agents.len(),
    {
        let mut i: usize = 0;
        while i < self.agents.len()
            invariant
                i <= self.agents.len(),
                self@.keys_unique(),
                forall|t: int| 0 <= t < i ==> self@.agents[t].id != id,
            decreases self.agents.len() - i,
        {
            if self.agents[i].id == id {
                proof {
                    let p = agent_pos(self@.agents, id);
                    assert(self@.agents[i as int].id == id);
                    assert(0 <= p < self@.agents.len() && self@.agents[p].id == id);
                    if i < p {
                        assert(self@.agents[i as int].id != self@.agents[p].id);
                    }
                }
                return Some(i);
            }
            i = i + 1;
        }
        None
    }

    /// The agent with id `id`.
    pub fn get_physical_agent(&self, id: u128) -> (r: Option<&Agent>)
        requires
            self@.keys_unique(),
        ensures
            r is None <==> !has_agent(self@.agents, id),
            r matches Some(a) ==> a@ == self@.agents[agent_pos(self@.agents, id)],
    {
        match self.find_agent(id) {
            Some(i) => Some(&self.agents[i]),
            None => None,
        }
    }

    /// Position of the agent listening on `ip:port`.
    pub fn find_address(&self, ip: &String, port: u32) -> (r: Option<usize>)
        ensures
            r is None <==> !address_taken(self@.agents, ip@, port),
            r matches Some(i) ==> i < self@.agents.len() && self@.agents[i as int].ip == ip@
                && self@.agents[i as int].port == port,
    {
        let mut i: usize = 0;
        while i < self.agents.len()
            invariant
                i <= self.agents.len(),
                forall|t: int| 0 <= t < i ==> !(self@.agents[t].ip == ip@ && self@.agents[t].port == port),
            decreases self.agents.len() - i,
        {
            if self.agents[i].port == port && self.agents[i].ip == *ip {
                return Some(i);
            }
            i = i + 1;
        }
        None
    }

    /// The agent listening on `ip:port`; by the address invariant there is at
    /// most one.
    pub fn get_physical_agent_by_address(&self, ip: &String, port: u32) -> (r: Option<&Agent>)
        ensures
            r is None <==> !address_taken(self@.agents, ip@, port),
            r matches Some(a) ==> a@.ip == ip@ && a@.port == port && exists|i: int|
                0 <= i < self@.agents.len() && self@.agents[i] == a@,
    {
        match self.find_address(ip, port) {
            Some(i) => Some(&self.agents[i]),
            None => None,
        }
    }

    /// The agents on host `ip`, in table order.
    pub fn get_physical_agent_by_ip(&self, ip: &String) -> (r: Vec<&Agent>)
        ensures
            agent_refs_view(r@) == self@.agents.filter(on_host(ip@)),
    {
        let mut out: Vec<&Agent> = Vec::new();
        let mut i: usize = 0;
        let ghost all = self@.agents;
        while i < self.agents.len()
            invariant
                i <= self.agents.len(),
                all == self@.agents,
                agent_refs_view(out@) == all.take(i as int).filter(on_host(ip@)),
            decreases self.agents.len() - i,
        {
            proof {
                reveal(Seq::filter);
                assert(all.take(i + 1).drop_last() =~= all.take(i as int));
                assert(all.take(i + 1).last() == all[i as int]);
                assert(all[i as int] == self.agents@[i as int]@);
            }
            if self.agents[i].ip == *ip {
                out.push(&self.agents[i]);
                proof {
                    assert(agent_refs_view(out@) =~= all.take(i as int).filter(on_host(ip@)).push(
                        all[i as int],
                    ));
                }
            } else {
                proof {
                    assert(!on_host(ip@)(all[i as int]));
                    assert(all.take(i + 1).filter(on_host(ip@)) == all.take(i as int).filter(
                        on_host(ip@),
                    ));
                }
            }
            i = i + 1;
        }
        assert(all.take(i as int) =~= all);
        proof {
            reveal(Seq::filter);
        }
        out
    }

    /// Position of the eligible agent with the fewest idle qubits.
    pub fn least_idle_position(&self, q: u32, d: u32) -> (r: Option<usize>)
        ensures
            opt_pos(r) == least_idle(self@.agents, q, d),
            r matches Some(i) ==> i < self@.agents.len(),
    {
        let ghost all = self@.agents;
        let mut best: Option<usize> = None;
        let mut i: usize = 0;
        while i < self.agents.len()
            invariant
                i <= self.agents.len(),
                all == self@.agents,
                opt_pos(best) == least_idle(all.take(i as int), q, d),
            decreases self.agents.len() - i,
        {
            proof {
                let t = all.take(i + 1);
                assert(t.drop_last() =~= all.take(i as int));
                lemma_least_idle_in_range(all.take(i as int), q, d);
                assert(all[i as int] == self.agents@[i as int]@);
            }
            let a = &self.agents[i];
            if a.status == AgentStatus::Running && a.qubit_idle >= q && a.circuit_depth >= d {
                let better = match best {
                    None => true,
                    Some(b) => a.qubit_idle < self.agents[b].qubit_idle,
                };
                if better {
                    best = Some(i);
                }
            }
            i = i + 1;
        }
        assert(all.take(i as int) =~= all);
        proof {
            lemma_least_idle_in_range(all, q, d);
        }
        best
    }

    /// Position of the eligible agent with the most idle qubits.
    pub fn most_idle_position(&self, q: u32, d: u32) -> (r: Option<usize>)
        ensures
            opt_pos(r) == most_idle(self@.agents, q, d),
            r matches Some(i) ==> i < self@.agents.len(),
    {
        let ghost all = self@.agents;
        let mut best: Option<usize> = None;
        let mut i: usize = 0;
        while i < self.agents.len()
            invariant
                i <= self.agents.len(),
                all == self@.agents,
                opt_pos(best) == most_idle(all.take(i as int), q, d),
                best matches Some(b) ==> b < i,
            decreases self.agents.len() - i,
        {
            proof {
                let t = all.take(i + 1);
                assert(t.drop_last() =~= all.take(i as int));
                lemma_most_idle_in_range(all.take(i as int), q, d);
                assert(all[i as int] == self.agents@[i as int]@);
            }
            let a = &self.agents[i];
            if a.status == AgentStatus::Running && a.qubit_idle >= q && a.circuit_depth >= d {
                let better = match best {
                    None => true,
                    Some(b) => a.qubit_idle > self.agents[b].qubit_idle,
                };
                if better {
                    best = Some(i);
                }
            }
            i = i + 1;
        }
        assert(all.take(i as int) =~= all);
        proof {
            lemma_most_idle_in_range(all, q, d);
        }
        best
    }

    /// The running agent that fits `q` qubits and depth `d` with the fewest
    /// idle qubits: the tightest fit.
    pub fn get_least_available_physical_agent(&self, q: u32, d: u32) -> (r: Option<&Agent>)
        ensures
            r is None <==> least_idle(self@.agents, q, d) is None,
            r matches Some(a) ==> a@ == self@.agents[least_idle(self@.agents, q, d)->0],
    {
        match self.least_idle_position(q, d) {
            Some(i) => Some(&self.agents[i]),
            None => None,
        }
    }

    /// The running agent that fits `q` qubits and depth `d` with the most
    /// idle qubits.
    pub fn get_most_available_physical_agent(&self, q: u32, d: u32) -> (r: Option<&Agent>)
        ensures
            r is None <==> most_idle(self@.agents, q, d) is None,
            r matches Some(a) ==> a@ == self@.agents[most_idle(self@.agents, q, d)->0],
    {
        match self.most_idle_position(q, d) {
            Some(i) => Some(&self.agents[i]),
            None => None,
        }
    }

    /// Whether some agent, running or not, has at least `q` qubits and
    /// depth `d`: the admission test for a job.
    pub fn get_physical_agent_available(&self, q: u32, d: u32) -> (r: bool)
        ensures
            r == capable_exists(self@.agents, q, d),
    {
        let mut i: usize = 0;
        while i < self.agents.len()
            invariant
                i <= self.agents.len(),
                forall|t: int|
                    0 <= t < i ==> !(self@.agents[t].qubit_count >= q && self@.agents[t].circuit_depth
                        >= d),
            decreases self.agents.len() - i,
        {
            if self.agents[i].qubit_count >= q && self.agents[i].circuit_depth >= d {
                assert(self@.agents[i as int] == self.agents@[i as int]@);
                return true;
            }
            i = i + 1;
        }
        false
    }

    /// Takes `q` idle qubits of an agent. Fails with `NotFound` for an
    /// unknown agent and with `Unavailable` when fewer than `q` are idle;
    /// nothing changes then.
    pub fn acquire(&mut self, agent_id: u128, q: u32) -> (r: Result<(), SchedError>)
        requires
            old(self)@.keys_unique(),
        ensures
            !has_agent(old(self)@.agents, agent_id) ==> r == Err::<(), SchedError>(
                SchedError::NotFound,
            ),
            has_agent(old(self)@.agents, agent_id) ==> {
                let i = agent_pos(old(self)@.agents, agent_id);
                let a = old(self)@.agents[i];
                &&& a.qubit_idle < q ==> r == Err::<(), SchedError>(SchedError::Unavailable)
                &&& a.qubit_idle >= q ==> r is Ok && final(self)@ == (StoreView {
                    agents: old(self)@.agents.update(i, AgentView { qubit_idle: (a.qubit_idle - q) as u32, ..a }),
                    ..old(self)@
                })
            },
            r is Err ==> final(self)@ == old(self)@,
    {
        let i = match self.find_agent(agent_id) {
            Some(i) => i,
            None => return Err(SchedError::NotFound),
        };
        if self.agents[i].qubit_idle < q {
            return Err(SchedError::Unavailable);
        }
        let ghost before = self@;
        let idle = self.agents[i].qubit_idle - q;
        self.agents[i].qubit_idle = idle;
        proof {
            let a = before.agents[i as int];
            assert(self@.agents =~= before.agents.update(i as int, AgentView { qubit_idle: idle, ..a }));
        }
        Ok(())
    }

    /// Gives `q` qubits back to an agent, never above its capacity. Fails
    /// with `NotFound` for an unknown agent, changing nothing.
    pub fn release(&mut self, agent_id: u128, q: u32) -> (r: Result<(), SchedError>)
        requires
            old(self)@.keys_unique(),
        ensures
            r is Err <==> !has_agent(old(self)@.agents, agent_id),
            r is Err ==> r == Err::<(), SchedError>(SchedError::NotFound) && final(self)@ == old(self)@,
            r is Ok ==> {
                let i = agent_pos(old(self)@.agents, agent_id);
                let a = old(self)@.agents[i];
                let n = if a.qubit_idle + q <= a.qubit_count { (a.qubit_idle + q) as u32 } else { a.qubit_count };
                final(self)@ == (StoreView {
                    agents: old(self)@.agents.update(i, AgentView { qubit_idle: n, ..a }),
                    ..old(self)@
                })
            },
    {
        let i = match self.find_agent(agent_id) {
            Some(i) => i,
            None => return Err(SchedError::NotFound),
        };
        let ghost before = self@;
        let count = self.agents[i].qubit_count;
        let idle = self.agents[i].qubit_idle;
        let n = if idle >= count || q >= count - idle { count } else { idle + q };
        self.agents[i].qubit_idle = n;
        proof {
            let a = before.agents[i as int];
            assert(self@.agents =~= before.agents.update(i as int, AgentView { qubit_idle: n, ..a }));
        }
        Ok(())
    }

    /// First step of a safe update: marks the agent down so that no new slice
    /// is matched to it, and returns the status it had.
    pub fn begin_drain(&mut self, agent_id: u128) -> (r: Result<AgentStatus, SchedError>)
        requires
            old(self)@.wf(),
        ensures
            final(self)@.wf(),
            r is Err <==> !has_agent(old(self)@.agents, agent_id),
            r is Err ==> r == Err::<AgentStatus, SchedError>(SchedError::NotFound) && final(self)@
                == old(self)@,
            r matches Ok(prior) ==> {
                let i = agent_pos(old(self)@.agents, agent_id);
                let a = old(self)@.agents[i];
                &&& prior == a.status
                &&& final(self)@ == (StoreView {
                    agents: old(self)@.agents.update(i, AgentView { status: AgentStatus::Down, ..a }),
                    ..old(self)@
                })
            },
    {
        let i = match self.find_agent(agent_id) {
            Some(i) => i,
            None => return Err(SchedError::NotFound),
        };
        let ghost before = self@;
        let prior = self.agents[i].status;
        self.agents[i].status = AgentStatus::Down;
        proof {
            let a = before.agents[i as int];
            let b = AgentView { status: AgentStatus::Down, ..a };
            assert(self@.agents =~= before.agents.update(i as int, b));
            lemma_own_address_free(before, i as int);
            lemma_agent_update_wf(before, i as int, b);
        }
        Ok(prior)
    }

    /// Second step of a safe update, repeated until it reports `Applied`:
    /// while slices still hold qubits on the agent nothing changes
    /// (`Pending`); once all its qubits are idle the patch is applied, the
    /// idle count follows a new capacity, and the status becomes the one the
    /// patch names or else `prior`, the status before the drain. Fails with
    /// `NotFound` for an unknown agent and with `Duplicate` when the new
    /// address is another agent's; nothing changes then.
    pub fn apply_drained_update(&mut self, patch: &AgentInfoUpdate, prior: AgentStatus) -> (r: Result<
        DrainStep,
        SchedError,
    >)
        requires
            old(self)@.wf(),
        ensures
            final(self)@.wf(),
            !has_agent(old(self)@.agents, patch.id) ==> r == Err::<DrainStep, SchedError>(
                SchedError::NotFound,
            ),
            has_agent(old(self)@.agents, patch.id) ==> {
                let i = agent_pos(old(self)@.agents, patch.id);
                let a = old(self)@.agents[i];
                let status = match patch.status {
                    Some(st) => st,
                    None => prior,
                };
                let b = patched(a, opt_string_view(patch.ip), patch.port, patch.qubit_count, patch.circuit_depth, status);
                &&& a.qubit_idle != a.qubit_count ==> r == Ok::<DrainStep, SchedError>(DrainStep::Pending)
                &&& a.qubit_idle == a.qubit_count && address_clash(old(self)@.agents, i, b.ip, b.port) ==> r
                    == Err::<DrainStep, SchedError>(SchedError::Duplicate) && final(self)@ == (StoreView {
                    agents: old(self)@.agents.update(i, AgentView { status: prior, ..a }),
                    ..old(self)@
                })
                &&& a.qubit_idle == a.qubit_count && !address_clash(old(self)@.agents, i, b.ip, b.port) ==> r
                    == Ok::<DrainStep, SchedError>(DrainStep::Applied) && final(self)@ == (StoreView {
                    agents: old(self)@.agents.update(i, b),
                    ..old(self)@
                })
            },
            r != Ok::<DrainStep, SchedError>(DrainStep::Applied) && r != Err::<DrainStep, SchedError>(
                SchedError::Duplicate,
            ) ==> final(self)@ == old(self)@,
            r == Ok::<DrainStep, SchedError>(DrainStep::Applied) ==> {
                let i = agent_pos(old(self)@.agents, patch.id);
                &&& has_agent(old(self)@.agents, patch.id)
                &&& old(self)@.agents[i].qubit_idle == old(self)@.agents[i].qubit_count
                &&& final(self)@.agents[i].qubit_idle == final(self)@.agents[i].qubit_count
            },
    {
        let i = match self.find_agent(patch.id) {
            Some(i) => i,
            None => return Err(SchedError::NotFound),
        };
        if self.agents[i].qubit_idle != self.agents[i].qubit_count {
            return Ok(DrainStep::Pending);
        }
        let ghost before = self@;
        let ip = match &patch.ip {
            Some(x) => x.clone(),
            None => self.agents[i].ip.clone(),
        };
        let port = match patch.port {
            Some(p) => p,
            None => self.agents[i].port,
        };
        let mut j: usize = 0;
        let mut clash = false;
        while j < self.agents.len() && !clash
            invariant
                j <= self.agents.len(),
                self@ == before,
                clash ==> address_clash(before.agents, i as int, ip@, port),
                before.wf(),
                has_agent(before.agents, patch.id),
                i == agent_pos(before.agents, patch.id),
                i < self.agents.len(),
                before.agents[i as int].qubit_idle == before.agents[i as int].qubit_count,
                ip@ == (match opt_string_view(patch.ip) {
                    Some(x) => x,
                    None => before.agents[i as int].ip,
                }),
                port == (match patch.port {
                    Some(x) => x,
                    None => before.agents[i as int].port,
                }),
                !clash ==> forall|t: int| 0 <= t < j && t != i ==> !(before.agents[t].ip == ip@ && before.agents[t].port == port),
            decreases self.agents.len() - j + (if clash { 0int } else { 1int }),
        {
            if j != i && self.agents[j].port == port && self.agents[j].ip == ip {
                proof {
                    assert(before.agents[j as int] == self.agents@[j as int]@);
                    assert(address_clash(before.agents, i as int, ip@, port));
                }
                clash = true;
            } else {
                j = j + 1;
            }
        }
        if clash {
            self.agents[i].status = prior;
            proof {
                let a = before.agents[i as int];
                let b = AgentView { status: prior, ..a };
                assert(self@.agents =~= before.agents.update(i as int, b));
                lemma_own_address_free(before, i as int);
                lemma_agent_update_wf(before, i as int, b);
            }
            return Err(SchedError::Duplicate);
        }
        let count = match patch.qubit_count {
            Some(c) => c,
            None => self.agents[i].qubit_count,
        };
        let depth = match patch.circuit_depth {
            Some(x) => x,
            None => self.agents[i].circuit_depth,
        };
        let status = match patch.status {
            Some(st) => st,
            None => prior,
        };
        self.agents[i].ip = ip;
        self.agents[i].port = port;
        self.agents[i].qubit_count = count;
        self.agents[i].qubit_idle = count;
        self.agents[i].circuit_depth = depth;
        self.agents[i].status = status;
        proof {
            let a = before.agents[i as int];
            let b = patched(a, opt_string_view(patch.ip), patch.port, patch.qubit_count, patch.circuit_depth, status);
            assert(self@.agents =~= before.agents.update(i as int, b));
            assert(!address_clash(before.agents, i as int, b.ip, b.port));
            lemma_agent_update_wf(before, i as int, b);
        }
        Ok(DrainStep::Applied)
    }

    /// Deletes an agent; its assignments stay in the log. Fails with
    /// `NotFound` for an unknown agent, changing nothing.
    pub fn remove_physical_agent(&mut self, agent_id: u128) -> (r: Result<Agent, SchedError>)
        requires
            old(self)@.wf(),
        ensures
            final(self)@.wf(),
            r is Err <==> !has_agent(old(self)@.agents, agent_id),
            r is Err ==> r == Err::<Agent, SchedError>(SchedError::NotFound) && final(self)@ == old(self)@,
            r matches Ok(a) ==> {
                let i = agent_pos(old(self)@.agents, agent_id);
                &&& a@ == old(self)@.agents[i]
                &&& final(self)@ == (StoreView { agents: old(self)@.agents.remove(i), ..old(self)@ })
            },
    {
        let i = match self.find_agent(agent_id) {
            Some(i) => i,
            None => return Err(SchedError::NotFound),
        };
        let ghost before = self@;
        let a = self.agents.remove(i);
        proof {
            let t = before.agents.remove(i as int);
            assert(self@.agents =~= t);
            assert forall|x: int| 0 <= x < t.len() implies #[trigger] t[x] == before.agents[if x < i { x } else { x + 1 }] by {}
            assert(self@.keys_unique()) by {
                assert forall|x: int, y: int| 0 <= x < y < t.len() implies #[trigger] t[x].id != #[trigger] t[y].id by {
                    let x2 = if x < i { x } else { x + 1 };
                    let y2 = if y < i { y } else { y + 1 };
                    assert(before.agents[x2].id != before.agents[y2].id);
                }
            }
            assert(self@.addresses_unique()) by {
                assert forall|x: int, y: int| 0 <= x < y < t.len() implies !(#[trigger] t[x].ip == #[trigger] t[y].ip && t[x].port == t[y].port) by {
                    let x2 = if x < i { x } else { x + 1 };
                    let y2 = if y < i { y } else { y + 1 };
                    assert(!(before.agents[x2].ip == before.agents[y2].ip && before.agents[x2].port == before.agents[y2].port));
                }
            }
            assert(self@.reservations_match()) by {
                assert forall|x: int| 0 <= x < t.len() implies reserved(self@.assignments, #[trigger] t[x].id) == t[x].qubit_count - t[x].qubit_idle by {
                    let x2 = if x < i { x } else { x + 1 };
                    assert(reserved(before.assignments, before.agents[x2].id) == before.agents[x2].qubit_count - before.agents[x2].qubit_idle);
                }
            }
            assert(self@.idle_within_capacity()) by {
                assert forall|x: int| 0 <= x < t.len() implies 0 <= #[trigger] t[x].qubit_idle <= t[x].qubit_count by {
                    let x2 = if x < i { x } else { x + 1 };
                    assert(before.agents[x2].qubit_idle <= before.agents[x2].qubit_count);
                }
            }
        }
        Ok(a)
    }

    /// The agents an address names: every agent on the host when it gives no
    /// port, else the one agent listening on `ip:port`, if any.
    pub fn get_agents_by_address(&self, addr: &AgentAddress) -> (r: Vec<&Agent>)
        ensures
            addr.port is None ==> agent_refs_view(r@) == self@.agents.filter(on_host(addr.ip@)),
            addr.port matches Some(p) ==> {
                &&& r@.len() <= 1
                &&& r@.len() == 1 <==> address_taken(self@.agents, addr.ip@, p)
                &&& r@.len() == 1 ==> r@[0]@.ip == addr.ip@ && r@[0]@.port == p
            },
    {
        match addr.port {
            None => self.get_physical_agent_by_ip(&addr.ip),
            Some(p) => match self.get_physical_agent_by_address(&addr.ip, p) {
                Some(a) => {
                    let mut v: Vec<&Agent> = Vec::new();
                    v.push(a);
                    v
                },
                None => Vec::new(),
            },
        }
    }

    /// Whether the id is held by an agent or named by an assignment.
    fn agent_id_taken(&self, id: u128) -> (r: bool)
        requires
            self@.keys_unique(),
        ensures
            r == agent_id_in_use(self@, id),
    {
        if self.find_agent(id).is_some() {
            return true;
        }
        let mut k: usize = 0;
        while k < self.assignments.len()
            invariant
                k <= self.assignments.len(),
                forall|t: int| 0 <= t < k ==> self@.assignments[t].agent_id != id,
            decreases self.assignments.len() - k,
        {
            if self.assignments[k].agent_id == id {
                return true;
            }
            k = k + 1;
        }
        false
    }

    /// Admits an agent under the id `id`, running, with all its qubits idle.
    /// Fails with `Duplicate` when another agent has the same address, and
    /// with `Storage` when the id is already in use; nothing changes then.
    pub fn add_physical_agent_with(&mut self, id: u128, info: AgentInfo) -> (r: Result<
        u128,
        SchedError,
    >)
        requires
            old(self)@.wf(),
        ensures
            final(self)@.wf(),
            r == Err::<u128, SchedError>(SchedError::Duplicate) <==> address_taken(
                old(self)@.agents,
                info.ip@,
                info.port,
            ),
            r == Err::<u128, SchedError>(SchedError::Storage) <==> !address_taken(
                old(self)@.agents,
                info.ip@,
                info.port,
            ) && agent_id_in_use(old(self)@, id),
            !address_taken(old(self)@.agents, info.ip@, info.port) && !agent_id_in_use(
                old(self)@,
                id,
            ) ==> r == Ok::<u128, SchedError>(id),
            r.is_ok() ==> r == Ok::<u128, SchedError>(id) && final(self)@ == (StoreView {
                agents: old(self)@.agents.push(
                    admitted(info.ip@, info.port, info.qubit_count, info.circuit_depth, id),
                ),
                ..old(self)@
            }),
            r.is_err() ==> final(self)@ == old(self)@,
    {
        if self.find_address(&info.ip, info.port).is_some() {
            return Err(SchedError::Duplicate);
        }
        if self.agent_id_taken(id) {
            return Err(SchedError::Storage);
        }
        let ghost before = self@;
        let agent = Agent {
            id,
            ip: info.ip,
            port: info.port,
            qubit_count: info.qubit_count,
            qubit_idle: info.qubit_count,
            circuit_depth: info.circuit_depth,
            status: AgentStatus::Running,
        };
        self.agents.push(agent);
        proof {
            let v = admitted(info.ip@, info.port, info.qubit_count, info.circuit_depth, id);
            assert(self@.agents =~= before.agents.push(v));
            assert(self@ == (StoreView { agents: before.agents.push(v), ..before }));
            assert(!has_agent(before.agents, id));
            assert forall|k: int| 0 <= k < before.assignments.len() implies (
            #[trigger] before.assignments[k]).agent_id != id by {}
            lemma_reserved_zero(before.assignments, id);
            assert(self@.reservations_match()) by {
                assert forall|i: int| 0 <= i < self@.agents.len() implies reserved(
                    self@.assignments,
                    #[trigger] self@.agents[i].id,
                ) == self@.agents[i].qubit_count - self@.agents[i].qubit_idle by {
                    if i < before.agents.len() {
                        assert(self@.agents[i] == before.agents[i]);
                    }
                }
            }
            assert(self@.keys_unique()) by {
                assert forall|i: int, j: int| 0 <= i < j < self@.agents.len() implies #[trigger] self@.agents[i].id
                    != #[trigger] self@.agents[j].id by {
                    if j == before.agents.len() {
                        assert(self@.agents[i] == before.agents[i]);
                    }
                }
            }
            assert(self@.addresses_unique()) by {
                assert forall|i: int, j: int| 0 <= i < j < self@.agents.len() implies !(
                #[trigger] self@.agents[i].ip == #[trigger] self@.agents[j].ip && self@.agents[i].port
                    == self@.agents[j].port) by {
                    if j == before.agents.len() {
                        assert(self@.agents[i] == before.agents[i]);
                    }
                }
            }
        }
        Ok(id)
    }

    /// Admits an agent under a fresh random id; see
    /// [`Store::add_physical_agent_with`].
    pub fn add_physical_agent(&mut self, info: AgentInfo) -> (r: Result<u128, SchedError>)
        requires
            old(self)@.wf(),
        ensures
            final(self)@.wf(),
            r == Err::<u128, SchedError>(SchedError::Duplicate) <==> address_taken(
                old(self)@.agents,
                info.ip@,
                info.port,
            ),
            r is Err ==> r == Err::<u128, SchedError>(SchedError::Duplicate) || (r == Err::<
                u128,
                SchedError,
            >(SchedError::Storage) && old(self)@.agents.len() + old(self)@.assignments.len() > 0),
            r matches Ok(id) ==> final(self)@ == (StoreView {
                agents: old(self)@.agents.push(
                    admitted(info.ip@, info.port, info.qubit_count, info.circuit_depth, id),
                ),
                ..old(self)@
            }),
            r.is_err() ==> final(self)@ == old(self)@,
    {
        let id = new_uuid();
        self.add_physical_agent_with(id, info)
    }
}

} // verus!
