//! Properties of the scheduler that hold over every store and every step.
use crate::dispatcher::{round, slice_size};
use crate::executor::{finished, merged_result, SliceOutcomeView, SliceVerdict};
use crate::memory::{
    count_of, has_key, lemma_add_per_key, lemma_add_total, mentions, merged, sum_for, total,
    MemoryView,
};
use crate::model::{AssignmentStatus, TaskMode};
use crate::queue::top_waiting;
use crate::registry::{admitted, eligible, least_idle};
use crate::store::{
    has_assignment, has_job, has_terminal, job_pos, reserved, StoreView, TerminalResultView,
};
use vstd::prelude::*;

verus! {

/// Every active job has run at least none and at most all of its shots.
pub proof fn lemma_exec_shots_bounded(s: StoreView, i: int)
    requires
        s.wf(),
        0 <= i < s.active.len(),
    ensures
        0 <= s.active[i].exec_shots <= s.active[i].shots,
{
}

/// Every agent has at least none and at most all of its qubits idle.
pub proof fn lemma_idle_bounded(s: StoreView, i: int)
    requires
        s.wf(),
        0 <= i < s.agents.len(),
    ensures
        0 <= s.agents[i].qubit_idle <= s.agents[i].qubit_count,
{
}

/// On every agent, the qubits of its running assignments add up to its
/// capacity minus its idle qubits.
pub proof fn lemma_running_qubits_match(s: StoreView, i: int)
    requires
        s.wf(),
        0 <= i < s.agents.len(),
    ensures
        reserved(s.assignments, s.agents[i].id) == s.agents[i].qubit_count - s.agents[i].qubit_idle,
{
}

/// No job is in the active and the terminal table at once.
pub proof fn lemma_job_in_one_table(s: StoreView, id: u128)
    requires
        s.wf(),
    ensures
        !(has_job(s.active, id) && has_terminal(s.terminal, id)),
{
    if has_job(s.active, id) && has_terminal(s.terminal, id) {
        let i = choose|i: int| 0 <= i < s.active.len() && s.active[i].id == id;
        let j = choose|j: int| 0 <= j < s.terminal.len() && s.terminal[j].id == id;
        assert(s.active[i].id != s.terminal[j].id);
    }
}

/// At most one slice of a job is in flight at a time, so slices of a job in
/// sequence mode arrive in the order they were sent.
pub proof fn lemma_one_slice_per_job(s: StoreView, k: int, l: int)
    requires
        s.wf(),
        0 <= k < s.assignments.len(),
        0 <= l < s.assignments.len(),
        k != l,
        s.assignments[k].status == AssignmentStatus::Running,
        s.assignments[l].status == AssignmentStatus::Running,
    ensures
        s.assignments[k].task_id != s.assignments[l].task_id,
{
    if k < l {
        assert(s.assignments[k].task_id != s.assignments[l].task_id);
    } else {
        assert(s.assignments[l].task_id != s.assignments[k].task_id);
    }
}

/// Under aggregation (or no mode), merging histograms adds counts per
/// bitstring: every bitstring of either side is in the result, with its
/// running count plus the incoming counts for it.
pub proof fn lemma_aggregation_merge_per_key(
    mode: Option<TaskMode>,
    a: Seq<(Seq<char>, nat)>,
    b: Seq<(Seq<char>, nat)>,
    k: Seq<char>,
)
    requires
        mode is None || mode == Some(TaskMode::Aggregation),
        merged(mode, MemoryView::Counts(a), MemoryView::Counts(b)) is Some,
    ensures
        merged(mode, MemoryView::Counts(a), MemoryView::Counts(b)) matches Some(MemoryView::Counts(r))
            && count_of(r, k) == count_of(a, k) + sum_for(b, k) && (has_key(r, k) <==> has_key(a, k)
            || mentions(b, k)),
{
    lemma_add_per_key(a, b, k);
}

/// Under aggregation, counts follow shots: when the job's histogram holds as
/// many counts as shots it ran (none before its first slice) and the slice
/// returns a histogram of as many counts as its shots, then after the slice
/// the job's histogram holds as many counts as shots it ran; once terminal,
/// as many as it asked for.
pub proof fn lemma_aggregation_counts_follow_shots(
    s: StoreView,
    k: int,
    b: Seq<(Seq<char>, nat)>,
    now: i64,
)
    requires
        s.wf(),
        0 <= k < s.assignments.len(),
        s.assignments[k].status == AssignmentStatus::Running,
        s.active[job_pos(s.active, s.assignments[k].task_id)].mode == Some(TaskMode::Aggregation),
        match s.active[job_pos(s.active, s.assignments[k].task_id)].result {
            None => s.active[job_pos(s.active, s.assignments[k].task_id)].exec_shots == 0,
            Some(MemoryView::Counts(a)) => total(a) == s.active[job_pos(
                s.active,
                s.assignments[k].task_id,
            )].exec_shots,
            Some(MemoryView::Samples(_)) => false,
        },
        total(b) == s.assignments[k].shots,
    ensures
        ({
            let jp = job_pos(s.active, s.assignments[k].task_id);
            let (t, v) = finished(s, k, SliceOutcomeView::Success(MemoryView::Counts(b)), now);
            &&& v == SliceVerdict::Succeeded ==> (t.terminal.last().result matches TerminalResultView::Memory(
                MemoryView::Counts(r),
            ) && total(r) == s.active[jp].shots)
            &&& v == SliceVerdict::Continued ==> (t.active[jp].result matches Some(
                MemoryView::Counts(r),
            ) && total(r) == t.active[jp].exec_shots)
        }),
{
    let a = s.assignments[k];
    let jp = job_pos(s.active, a.task_id);
    let j = s.active[jp];
    match j.result {
        Some(MemoryView::Counts(p)) => {
            lemma_add_total(p, b);
        },
        _ => {},
    }
}

/// In sequence mode, samples follow shots: when the job's list holds one
/// sample per shot it ran and the slice returns one per its shots, then
/// after the slice the job's list holds one per shot it ran; once terminal,
/// one per shot it asked for.
pub proof fn lemma_sequence_samples_follow_shots(s: StoreView, k: int, b: Seq<Seq<char>>, now: i64)
    requires
        s.wf(),
        0 <= k < s.assignments.len(),
        s.assignments[k].status == AssignmentStatus::Running,
        s.active[job_pos(s.active, s.assignments[k].task_id)].mode == Some(TaskMode::Sequence),
        match s.active[job_pos(s.active, s.assignments[k].task_id)].result {
            None => s.active[job_pos(s.active, s.assignments[k].task_id)].exec_shots == 0,
            Some(MemoryView::Samples(a)) => a.len() == s.active[job_pos(
                s.active,
                s.assignments[k].task_id,
            )].exec_shots,
            Some(MemoryView::Counts(_)) => false,
        },
        b.len() == s.assignments[k].shots,
    ensures
        ({
            let jp = job_pos(s.active, s.assignments[k].task_id);
            let (t, v) = finished(s, k, SliceOutcomeView::Success(MemoryView::Samples(b)), now);
            &&& v == SliceVerdict::Succeeded ==> (t.terminal.last().result matches TerminalResultView::Memory(
                MemoryView::Samples(r),
            ) && r.len() == s.active[jp].shots)
            &&& v == SliceVerdict::Continued ==> (t.active[jp].result matches Some(
                MemoryView::Samples(r),
            ) && r.len() == t.active[jp].exec_shots)
        }),
{
}

/// A slice is never empty, whatever the depth, zero included, so a job
/// always moves towards its shot count.
pub proof fn lemma_slice_at_least_one(min_depth: u32, min_gran: u32, depth: u32, remaining: int)
    requires
        remaining >= 1,
    ensures
        1 <= slice_size(min_depth, min_gran, depth, remaining) <= remaining,
{
}

/// A round with an unused id launches the first waiting job whenever some
/// running agent has room for it.
pub proof fn lemma_round_launches(s: StoreView, md: u32, mg: u32, ids: Seq<u128>)
    requires
        ids.len() > 0,
        !has_assignment(s.assignments, ids[0]),
        top_waiting(s.active) is Some,
        least_idle(
            s.agents,
            s.active[top_waiting(s.active)->0].qubits,
            s.active[top_waiting(s.active)->0].depth,
        ) is Some,
    ensures
        round(s, md, mg, ids).1.len() >= 1,
{
}

/// A completed slice whose result merges either finishes the job or adds at
/// least one shot to its progress.
pub proof fn lemma_slice_advances(s: StoreView, k: int, body: MemoryView, now: i64)
    requires
        s.wf(),
        0 <= k < s.assignments.len(),
        s.assignments[k].status == AssignmentStatus::Running,
        merged_result(s.active[job_pos(s.active, s.assignments[k].task_id)], body) is Some,
    ensures
        ({
            let jp = job_pos(s.active, s.assignments[k].task_id);
            let (t, v) = finished(s, k, SliceOutcomeView::Success(body), now);
            v == SliceVerdict::Succeeded || (v == SliceVerdict::Continued && t.active[jp].exec_shots
                > s.active[jp].exec_shots)
        }),
{
}

/// An agent admitted again starts running with all qubits idle, so it takes
/// every job its size and depth allow.
pub proof fn lemma_admitted_agent_takes_fitting_jobs(
    ip: Seq<char>,
    port: u32,
    count: u32,
    depth: u32,
    id: u128,
    q: u32,
    d: u32,
)
    ensures
        eligible(admitted(ip, port, count, depth, id), q, d) <==> count >= q && depth >= d,
{
}

} // verus!
