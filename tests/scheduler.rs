use qsched::dispatcher::{slice_shots, Launch, QSchedulerConfig};
use qsched::executor::{SliceOutcome, SliceVerdict};
use qsched::memory::{merge_memory, reduce_counts, Memory, Reduce};
use qsched::model::{
    AgentStatus, AssignmentStatus, SchedError, TaskActiveStatus, TaskMode, TaskStatus,
};
use qsched::queue::{EmulateMessage, TaskRecord};
use qsched::registry::{AgentInfo, AgentInfoUpdate, DrainStep};
use qsched::store::{Store, TerminalResult};

fn agent(ip: &str, port: u32, qubits: u32, depth: u32) -> AgentInfo {
    AgentInfo {
        ip: ip.to_string(),
        hostname: None,
        port,
        qubit_count: qubits,
        circuit_depth: depth,
    }
}

fn job(qubits: u32, depth: u32, shots: u32, mode: Option<TaskMode>) -> EmulateMessage {
    EmulateMessage {
        code: "OPENQASM 2.0;".to_string(),
        qubits,
        depth,
        shots,
        mode,
    }
}

fn counts(pairs: &[(&str, u64)]) -> Memory {
    Memory::Counts(pairs.iter().map(|(k, v)| (k.to_string(), *v)).collect())
}

fn samples(items: &[&str]) -> Memory {
    Memory::Samples(items.iter().map(|s| s.to_string()).collect())
}

fn cfg() -> QSchedulerConfig {
    QSchedulerConfig::default()
}

fn one_round(store: &mut Store, id: u128) -> Vec<Launch> {
    store.dispatch_round_with(&cfg(), &vec![id])
}

fn terminal(store: &Store, id: u128) -> &qsched::store::TerminalJob {
    match store.get_task(id) {
        Some(TaskRecord::Terminal(t)) => t,
        other => panic!("job is not terminal: {:?}", other),
    }
}

fn active(store: &Store, id: u128) -> &qsched::store::Job {
    match store.get_task(id) {
        Some(TaskRecord::Active(j)) => j,
        other => panic!("job is not active: {:?}", other),
    }
}

#[test]
fn happy_path_single_slice() {
    let mut store = Store::new();
    let a = store.add_physical_agent_with(1, agent("10.0.0.1", 8000, 4, 10)).unwrap();
    let j = store
        .submit_with(100, 1, job(2, 2, 400, Some(TaskMode::Aggregation)))
        .unwrap();
    let launches = one_round(&mut store, 1000);
    assert_eq!(launches.len(), 1);
    assert_eq!(launches[0].shots, 400);
    assert_eq!(launches[0].task_id, j);
    assert_eq!(launches[0].agent_id, a);
    assert_eq!(launches[0].ip, "10.0.0.1");
    assert_eq!(launches[0].port, 8000);
    assert_eq!(store.get_physical_agent(a).unwrap().qubit_idle, 2);
    assert_eq!(active(&store, j).status, TaskActiveStatus::Running);
    let body = counts(&[("00", 210), ("11", 190)]);
    let v = store
        .finish_slice_at(1000, SliceOutcome::Success(body.clone()), 2)
        .unwrap();
    assert_eq!(v, SliceVerdict::Succeeded);
    let t = terminal(&store, j);
    assert_eq!(t.status, TaskStatus::Succeeded);
    match &t.result {
        TerminalResult::Memory(m) => assert_eq!(*m, body),
        other => panic!("unexpected result {:?}", other),
    }
    assert!(store.active.is_empty());
    assert_eq!(store.get_physical_agent(a).unwrap().qubit_idle, 4);
    assert_eq!(store.assignments[0].status, AssignmentStatus::Succeeded);
}

#[test]
fn multi_slice_aggregates_twenty_slices() {
    let mut store = Store::new();
    let a = store.add_physical_agent_with(1, agent("10.0.0.1", 8000, 4, 200)).unwrap();
    let j = store.submit_with(100, 1, job(2, 100, 400, None)).unwrap();
    let mut rounds = 0u32;
    loop {
        let launches = one_round(&mut store, 5000 + rounds as u128);
        assert_eq!(launches.len(), 1);
        assert_eq!(launches[0].shots, 20);
        let v = store
            .finish_slice_at(
                launches[0].assignment_id,
                SliceOutcome::Success(counts(&[("00", 12), ("01", 8)])),
                10 + rounds as i64,
            )
            .unwrap();
        rounds += 1;
        if v == SliceVerdict::Succeeded {
            break;
        }
        assert_eq!(v, SliceVerdict::Continued);
        assert_eq!(active(&store, j).exec_shots, 20 * rounds);
        assert_eq!(active(&store, j).v_exec_shots, 20 * rounds as u64);
    }
    assert_eq!(rounds, 20);
    let t = terminal(&store, j);
    assert_eq!(t.status, TaskStatus::Succeeded);
    match &t.result {
        TerminalResult::Memory(m) => assert_eq!(*m, counts(&[("00", 240), ("01", 160)])),
        other => panic!("unexpected result {:?}", other),
    }
    assert_eq!(store.get_assignment_by_task(j).len(), 20);
    assert_eq!(store.get_assignment_by_agent(a).len(), 20);
    assert_eq!(store.get_physical_agent(a).unwrap().qubit_idle, 4);
}

#[test]
fn admission_rejected_when_no_agent_is_large_enough() {
    let mut store = Store::new();
    store.add_physical_agent_with(1, agent("10.0.0.1", 8000, 4, 10)).unwrap();
    store.add_physical_agent_with(2, agent("10.0.0.2", 8000, 7, 100)).unwrap();
    let r = store.submit_with(100, 1, job(8, 2, 400, None));
    assert_eq!(r, Err(SchedError::AdmissionRejected));
    assert!(store.active.is_empty());
    assert!(store.get_task(100).is_none());
}

#[test]
fn admission_rejected_for_depth_and_for_zero_shots() {
    let mut store = Store::new();
    store.add_physical_agent_with(1, agent("10.0.0.1", 8000, 4, 10)).unwrap();
    assert_eq!(
        store.submit_with(100, 1, job(2, 11, 400, None)),
        Err(SchedError::AdmissionRejected)
    );
    assert_eq!(
        store.submit_with(101, 1, job(2, 2, 0, None)),
        Err(SchedError::AdmissionRejected)
    );
    assert!(store.active.is_empty());
}

#[test]
fn admission_with_taken_id_is_a_storage_error() {
    let mut store = Store::new();
    store.add_physical_agent_with(1, agent("10.0.0.1", 8000, 4, 10)).unwrap();
    store.submit_with(100, 1, job(2, 2, 40, None)).unwrap();
    assert_eq!(
        store.submit_with(100, 2, job(2, 2, 40, None)),
        Err(SchedError::Storage)
    );
    assert_eq!(store.active.len(), 1);
}

#[test]
fn transport_failure_on_second_slice_fails_the_job() {
    let mut store = Store::new();
    let a = store.add_physical_agent_with(1, agent("10.0.0.1", 8000, 4, 200)).unwrap();
    let j = store.submit_with(100, 1, job(3, 100, 400, None)).unwrap();
    let l1 = one_round(&mut store, 7001);
    store
        .finish_slice_at(7001, SliceOutcome::Success(counts(&[("0", 20)])), 2)
        .unwrap();
    assert_eq!(active(&store, j).exec_shots, 20);
    let l2 = one_round(&mut store, 7002);
    assert_eq!(l1.len(), 1);
    assert_eq!(l2.len(), 1);
    assert_eq!(store.get_physical_agent(a).unwrap().qubit_idle, 1);
    let v = store
        .finish_slice_at(7002, SliceOutcome::Failure("HTTP status 500".to_string()), 3)
        .unwrap();
    assert_eq!(v, SliceVerdict::Failed);
    let t = terminal(&store, j);
    assert_eq!(t.status, TaskStatus::Failed);
    match &t.result {
        TerminalResult::Error(e) => assert_eq!(e, "HTTP status 500"),
        other => panic!("unexpected result {:?}", other),
    }
    let log = store.get_assignment_by_task(j);
    assert_eq!(log[0].status, AssignmentStatus::Succeeded);
    assert_eq!(log[1].status, AssignmentStatus::Failed);
    let ag = store.get_physical_agent(a).unwrap();
    assert_eq!(ag.qubit_idle, ag.qubit_count);
}

#[test]
fn drain_waits_for_in_flight_slice() {
    let mut store = Store::new();
    let a = store.add_physical_agent_with(1, agent("10.0.0.1", 8000, 4, 200)).unwrap();
    let b = store.add_physical_agent_with(2, agent("10.0.0.2", 8000, 2, 200)).unwrap();
    let j = store.submit_with(100, 1, job(3, 100, 400, None)).unwrap();
    let l = one_round(&mut store, 9001);
    assert_eq!(l[0].agent_id, a);
    let prior = store.begin_drain(a).unwrap();
    assert_eq!(prior, AgentStatus::Running);
    let patch = AgentInfoUpdate {
        id: a,
        ip: None,
        port: None,
        qubit_count: Some(16),
        circuit_depth: None,
        status: None,
    };
    assert_eq!(store.apply_drained_update(&patch, prior), Ok(DrainStep::Pending));
    assert_eq!(store.get_physical_agent(a).unwrap().qubit_count, 4);
    // other agents and jobs go on meanwhile
    let k = store.submit_with(101, 2, job(2, 100, 40, None)).unwrap();
    let l2 = one_round(&mut store, 9002);
    assert_eq!(l2.len(), 1);
    assert_eq!(l2[0].task_id, k);
    assert_eq!(l2[0].agent_id, b);
    store
        .finish_slice_at(9001, SliceOutcome::Success(counts(&[("1", 20)])), 3)
        .unwrap();
    assert_eq!(active(&store, j).exec_shots, 20);
    assert_eq!(store.apply_drained_update(&patch, prior), Ok(DrainStep::Applied));
    let ag = store.get_physical_agent(a).unwrap();
    assert_eq!(ag.qubit_count, 16);
    assert_eq!(ag.qubit_idle, 16);
    assert_eq!(ag.status, AgentStatus::Running);
}

#[test]
fn drain_with_status_in_patch_keeps_that_status() {
    let mut store = Store::new();
    let a = store.add_physical_agent_with(1, agent("10.0.0.1", 8000, 4, 200)).unwrap();
    let prior = store.begin_drain(a).unwrap();
    let patch = AgentInfoUpdate {
        id: a,
        ip: None,
        port: Some(9000),
        qubit_count: None,
        circuit_depth: Some(50),
        status: Some(AgentStatus::Down),
    };
    assert_eq!(store.apply_drained_update(&patch, prior), Ok(DrainStep::Applied));
    let ag = store.get_physical_agent(a).unwrap();
    assert_eq!(ag.status, AgentStatus::Down);
    assert_eq!(ag.port, 9000);
    assert_eq!(ag.circuit_depth, 50);
    assert_eq!(ag.qubit_count, 4);
}

#[test]
fn drain_patch_onto_taken_address_is_duplicate() {
    let mut store = Store::new();
    let a = store.add_physical_agent_with(1, agent("10.0.0.1", 8000, 4, 200)).unwrap();
    store.add_physical_agent_with(2, agent("10.0.0.2", 8000, 4, 200)).unwrap();
    let prior = store.begin_drain(a).unwrap();
    let patch = AgentInfoUpdate {
        id: a,
        ip: Some("10.0.0.2".to_string()),
        port: None,
        qubit_count: None,
        circuit_depth: None,
        status: None,
    };
    assert_eq!(
        store.apply_drained_update(&patch, prior),
        Err(SchedError::Duplicate)
    );
    let ag = store.get_physical_agent(a).unwrap();
    assert_eq!(ag.ip, "10.0.0.1");
    assert_eq!(ag.status, AgentStatus::Running);
}

#[test]
fn drain_unknown_agent_is_not_found() {
    let mut store = Store::new();
    assert_eq!(store.begin_drain(5), Err(SchedError::NotFound));
    let patch = AgentInfoUpdate {
        id: 5,
        ip: None,
        port: None,
        qubit_count: None,
        circuit_depth: None,
        status: None,
    };
    assert_eq!(
        store.apply_drained_update(&patch, AgentStatus::Running),
        Err(SchedError::NotFound)
    );
}

#[test]
fn priority_fairness_between_old_and_new_job() {
    let mut store = Store::new();
    store.add_physical_agent_with(1, agent("10.0.0.1", 8000, 2, 200)).unwrap();
    let a = store.submit_with(100, 1, job(2, 100, 400, None)).unwrap();
    let b = store.submit_with(101, 2, job(2, 100, 400, None)).unwrap();
    assert_eq!(active(&store, b).v_exec_shots, 0);
    let l1 = one_round(&mut store, 1);
    assert_eq!(l1.len(), 1);
    assert_eq!(l1[0].task_id, a);
    store
        .finish_slice_at(1, SliceOutcome::Success(counts(&[("0", 20)])), 3)
        .unwrap();
    assert_eq!(active(&store, a).v_exec_shots, 20);
    let l2 = one_round(&mut store, 2);
    assert_eq!(l2.len(), 1);
    assert_eq!(l2[0].task_id, b);
}

#[test]
fn new_job_inherits_minimum_virtual_progress() {
    let mut store = Store::new();
    store.add_physical_agent_with(1, agent("10.0.0.1", 8000, 2, 200)).unwrap();
    assert_eq!(store.get_min_vexec_shots(), 0);
    let a = store.submit_with(100, 1, job(2, 100, 400, None)).unwrap();
    one_round(&mut store, 1);
    store
        .finish_slice_at(1, SliceOutcome::Success(counts(&[("0", 20)])), 3)
        .unwrap();
    assert_eq!(store.get_min_vexec_shots(), 20);
    let b = store.submit_with(101, 4, job(2, 100, 400, None)).unwrap();
    assert_eq!(active(&store, b).v_exec_shots, 20);
    assert_eq!(active(&store, a).v_exec_shots, 20);
    // equal progress: the older job goes first
    let l = one_round(&mut store, 2);
    assert_eq!(l[0].task_id, a);
}

#[test]
fn round_stops_at_first_job_without_agent() {
    let mut store = Store::new();
    store.add_physical_agent_with(1, agent("10.0.0.1", 8000, 4, 200)).unwrap();
    let a = store.submit_with(100, 1, job(3, 100, 400, None)).unwrap();
    let b = store.submit_with(101, 2, job(3, 100, 400, None)).unwrap();
    let c = store.submit_with(102, 3, job(1, 100, 400, None)).unwrap();
    let l = store.dispatch_round_with(&cfg(), &vec![1, 2, 3]);
    // a takes three qubits; b needs three and only one is idle: the round
    // stops there, even though c would fit
    assert_eq!(l.len(), 1);
    assert_eq!(l[0].task_id, a);
    assert_eq!(active(&store, b).status, TaskActiveStatus::Waiting);
    assert_eq!(active(&store, c).status, TaskActiveStatus::Waiting);
}

#[test]
fn round_picks_tightest_fitting_agent() {
    let mut store = Store::new();
    store.add_physical_agent_with(1, agent("10.0.0.1", 8000, 8, 200)).unwrap();
    let small = store.add_physical_agent_with(2, agent("10.0.0.2", 8000, 3, 200)).unwrap();
    store.add_physical_agent_with(3, agent("10.0.0.3", 8000, 1, 200)).unwrap();
    store.submit_with(100, 1, job(2, 100, 400, None)).unwrap();
    let l = one_round(&mut store, 1);
    assert_eq!(l[0].agent_id, small);
    assert_eq!(store.get_least_available_physical_agent(2, 100).unwrap().id, 1);
    assert_eq!(store.get_most_available_physical_agent(2, 100).unwrap().id, 1);
    assert!(store.get_least_available_physical_agent(9, 1).is_none());
}

#[test]
fn round_stops_at_taken_assignment_id() {
    let mut store = Store::new();
    store.add_physical_agent_with(1, agent("10.0.0.1", 8000, 8, 200)).unwrap();
    store.submit_with(100, 1, job(2, 100, 400, None)).unwrap();
    store.submit_with(101, 2, job(2, 100, 400, None)).unwrap();
    let l = store.dispatch_round_with(&cfg(), &vec![7, 7]);
    assert_eq!(l.len(), 1);
}

#[test]
fn down_agent_takes_no_slice_until_readmitted() {
    let mut store = Store::new();
    let a = store.add_physical_agent_with(1, agent("10.0.0.1", 8000, 4, 200)).unwrap();
    let j = store.submit_with(100, 1, job(2, 2, 400, None)).unwrap();
    store.remove_physical_agent(a).unwrap();
    assert!(one_round(&mut store, 1).is_empty());
    store.add_physical_agent_with(2, agent("10.0.0.1", 8000, 4, 200)).unwrap();
    let l = one_round(&mut store, 2);
    assert_eq!(l.len(), 1);
    store
        .finish_slice_at(2, SliceOutcome::Success(counts(&[("0", 400)])), 3)
        .unwrap();
    assert_eq!(terminal(&store, j).status, TaskStatus::Succeeded);
}

#[test]
fn duplicate_address_is_refused() {
    let mut store = Store::new();
    store.add_physical_agent_with(1, agent("10.0.0.1", 8000, 4, 10)).unwrap();
    assert_eq!(
        store.add_physical_agent_with(2, agent("10.0.0.1", 8000, 8, 20)),
        Err(SchedError::Duplicate)
    );
    assert_eq!(store.agents.len(), 1);
    assert!(store.add_physical_agent_with(3, agent("10.0.0.1", 8001, 8, 20)).is_ok());
    assert_eq!(
        store.add_physical_agent_with(3, agent("10.0.0.9", 8001, 8, 20)),
        Err(SchedError::Storage)
    );
}

#[test]
fn lookup_agents_by_address_and_host() {
    let mut store = Store::new();
    store.add_physical_agent_with(1, agent("10.0.0.1", 8000, 4, 10)).unwrap();
    store.add_physical_agent_with(2, agent("10.0.0.1", 8001, 4, 10)).unwrap();
    store.add_physical_agent_with(3, agent("10.0.0.2", 8000, 4, 10)).unwrap();
    let ip = "10.0.0.1".to_string();
    let on_host = store.get_physical_agent_by_ip(&ip);
    assert_eq!(on_host.len(), 2);
    assert_eq!(on_host[0].id, 1);
    assert_eq!(on_host[1].id, 2);
    assert_eq!(store.get_physical_agent_by_address(&ip, 8001).unwrap().id, 2);
    assert!(store.get_physical_agent_by_address(&ip, 9).is_none());
    assert!(store.get_physical_agent_available(4, 10));
    assert!(!store.get_physical_agent_available(5, 10));
}

#[test]
fn remove_agent_keeps_assignments() {
    let mut store = Store::new();
    let a = store.add_physical_agent_with(1, agent("10.0.0.1", 8000, 4, 200)).unwrap();
    store.submit_with(100, 1, job(2, 100, 400, None)).unwrap();
    one_round(&mut store, 1);
    let removed = store.remove_physical_agent(a).unwrap();
    assert_eq!(removed.id, a);
    assert!(store.get_physical_agent(a).is_none());
    assert_eq!(store.get_assignment_by_agent(a).len(), 1);
    assert_eq!(store.remove_physical_agent(a).err(), Some(SchedError::NotFound));
    // the slice can still complete; no agent gets its qubits
    assert_eq!(
        store.finish_slice_at(1, SliceOutcome::Success(counts(&[("0", 20)])), 2),
        Ok(SliceVerdict::Continued)
    );
}

#[test]
fn acquire_and_release_respect_capacity() {
    let mut store = Store::new();
    let a = store.add_physical_agent_with(1, agent("10.0.0.1", 8000, 4, 10)).unwrap();
    assert_eq!(store.acquire(a, 5), Err(SchedError::Unavailable));
    assert_eq!(store.acquire(a, 3), Ok(()));
    assert_eq!(store.get_physical_agent(a).unwrap().qubit_idle, 1);
    assert_eq!(store.release(a, 10), Ok(()));
    assert_eq!(store.get_physical_agent(a).unwrap().qubit_idle, 4);
    assert_eq!(store.acquire(9, 1), Err(SchedError::NotFound));
    assert_eq!(store.release(9, 1), Err(SchedError::NotFound));
}

#[test]
fn finishing_unknown_or_closed_slice_is_not_found() {
    let mut store = Store::new();
    store.add_physical_agent_with(1, agent("10.0.0.1", 8000, 4, 200)).unwrap();
    store.submit_with(100, 1, job(2, 2, 400, None)).unwrap();
    assert_eq!(
        store.finish_slice_at(1, SliceOutcome::Failure("x".to_string()), 2),
        Err(SchedError::NotFound)
    );
    one_round(&mut store, 1);
    store
        .finish_slice_at(1, SliceOutcome::Success(counts(&[("0", 400)])), 2)
        .unwrap();
    assert_eq!(
        store.finish_slice_at(1, SliceOutcome::Success(counts(&[("0", 400)])), 3),
        Err(SchedError::NotFound)
    );
}

#[test]
fn sequence_mode_concatenates_samples_to_shot_count() {
    let mut store = Store::new();
    store.add_physical_agent_with(1, agent("10.0.0.1", 8000, 4, 2000)).unwrap();
    let j = store
        .submit_with(100, 1, job(1, 1000, 6, Some(TaskMode::Sequence)))
        .unwrap();
    let l1 = one_round(&mut store, 1);
    assert_eq!(l1[0].shots, 2);
    assert_eq!(l1[0].mode, Some(TaskMode::Sequence));
    store
        .finish_slice_at(1, SliceOutcome::Success(samples(&["00", "01"])), 2)
        .unwrap();
    one_round(&mut store, 2);
    store
        .finish_slice_at(2, SliceOutcome::Success(samples(&["10", "11"])), 3)
        .unwrap();
    one_round(&mut store, 3);
    let v = store
        .finish_slice_at(3, SliceOutcome::Success(samples(&["00", "00"])), 4)
        .unwrap();
    assert_eq!(v, SliceVerdict::Succeeded);
    match &terminal(&store, j).result {
        TerminalResult::Memory(Memory::Samples(s)) => {
            assert_eq!(s.len(), 6);
            assert_eq!(s, &vec!["00", "01", "10", "11", "00", "00"]);
        }
        other => panic!("unexpected result {:?}", other),
    }
}

#[test]
fn mismatched_memory_shapes_fail_the_job() {
    let mut store = Store::new();
    store.add_physical_agent_with(1, agent("10.0.0.1", 8000, 4, 200)).unwrap();
    let j = store.submit_with(100, 1, job(1, 100, 40, None)).unwrap();
    one_round(&mut store, 1);
    store
        .finish_slice_at(1, SliceOutcome::Success(counts(&[("0", 20)])), 2)
        .unwrap();
    one_round(&mut store, 2);
    let v = store
        .finish_slice_at(2, SliceOutcome::Success(samples(&["0"])), 3)
        .unwrap();
    assert_eq!(v, SliceVerdict::Failed);
    let t = terminal(&store, j);
    assert_eq!(t.status, TaskStatus::Failed);
    match &t.result {
        TerminalResult::Error(e) => {
            assert_eq!(e, "Memory of the slice does not merge with the result of the job")
        }
        other => panic!("unexpected result {:?}", other),
    }
}

#[test]
fn merging_same_body_twice_doubles_counts() {
    let body = counts(&[("00", 3), ("01", 5), ("11", 7)]);
    let once = merge_memory(Some(TaskMode::Aggregation), &body, &body).unwrap();
    assert_eq!(once, counts(&[("00", 6), ("01", 10), ("11", 14)]));
    let unset = merge_memory(None, &body, &body).unwrap();
    assert_eq!(unset, once);
}

#[test]
fn aggregation_adds_and_inserts_keys() {
    let prev = counts(&[("00", 1000), ("01", 1000)]);
    let inc = counts(&[("01", 5), ("10", 7)]);
    let m = merge_memory(Some(TaskMode::Aggregation), &prev, &inc).unwrap();
    assert_eq!(m, counts(&[("00", 1000), ("01", 1005), ("10", 7)]));
}

#[test]
fn max_and_min_reduce_per_key() {
    let prev = counts(&[("00", 4), ("01", 9)]);
    let inc = counts(&[("00", 6), ("01", 2), ("11", 1)]);
    assert_eq!(
        merge_memory(Some(TaskMode::Max), &prev, &inc).unwrap(),
        counts(&[("00", 6), ("01", 9), ("11", 1)])
    );
    assert_eq!(
        merge_memory(Some(TaskMode::Min), &prev, &inc).unwrap(),
        counts(&[("00", 4), ("01", 2), ("11", 1)])
    );
}

#[test]
fn sequence_concatenates_in_arrival_order() {
    let m = merge_memory(
        Some(TaskMode::Sequence),
        &samples(&["a", "b"]),
        &samples(&["c"]),
    )
    .unwrap();
    assert_eq!(m, samples(&["a", "b", "c"]));
    // lists are concatenated whatever the mode
    let m2 = merge_memory(Some(TaskMode::Max), &samples(&["a"]), &samples(&["b"])).unwrap();
    assert_eq!(m2, samples(&["a", "b"]));
}

#[test]
fn shape_mismatch_does_not_merge() {
    assert!(merge_memory(None, &counts(&[("0", 1)]), &samples(&["0"])).is_none());
    assert!(merge_memory(None, &samples(&["0"]), &counts(&[("0", 1)])).is_none());
}

#[test]
fn count_overflow_does_not_merge() {
    let a = vec![("0".to_string(), u64::MAX)];
    let b = vec![("0".to_string(), 1u64)];
    assert!(reduce_counts(&a, &b, Reduce::Add).is_none());
    assert_eq!(
        reduce_counts(&a, &b, Reduce::Max),
        Some(vec![("0".to_string(), u64::MAX)])
    );
    assert_eq!(
        reduce_counts(&a, &b, Reduce::Min),
        Some(vec![("0".to_string(), 1u64)])
    );
}

#[test]
fn slice_size_formula() {
    // floor(10 / 2 * 200) = 1000, clamped to the 400 remaining
    assert_eq!(slice_shots(10, 200, 2, 400, 0), 400);
    // floor(10 / 100 * 200) = 20
    assert_eq!(slice_shots(10, 200, 100, 400, 0), 20);
    // floor(10 / 3 * 200) = 666
    assert_eq!(slice_shots(10, 200, 3, 10000, 0), 666);
    // the last slice takes what remains
    assert_eq!(slice_shots(10, 200, 100, 400, 390), 10);
}

#[test]
fn degenerate_depths_still_give_a_slice() {
    // depth zero: all remaining shots at once
    assert_eq!(slice_shots(10, 200, 0, 400, 100), 300);
    // a depth so large that the formula gives zero: one shot
    assert_eq!(slice_shots(10, 200, 5000, 400, 0), 1);
    assert_eq!(slice_shots(0, 200, 5, 400, 0), 1);
}

#[test]
fn depth_zero_job_completes_in_one_slice() {
    let mut store = Store::new();
    store.add_physical_agent_with(1, agent("10.0.0.1", 8000, 4, 10)).unwrap();
    let j = store.submit_with(100, 1, job(1, 0, 50, None)).unwrap();
    let l = one_round(&mut store, 1);
    assert_eq!(l[0].shots, 50);
    store
        .finish_slice_at(1, SliceOutcome::Success(counts(&[("1", 50)])), 2)
        .unwrap();
    assert_eq!(terminal(&store, j).status, TaskStatus::Succeeded);
}

#[test]
fn default_configuration() {
    let c = QSchedulerConfig::default();
    assert_eq!(c.sched_min_gran, 200);
    assert_eq!(c.sched_min_depth, 10);
    assert_eq!(c.listen_ip, "0.0.0.0");
    assert_eq!(c.listen_port, 3000);
}

#[test]
fn agent_status_and_mode_text() {
    assert_eq!(AgentStatus::parse("running"), Ok(AgentStatus::Running));
    assert_eq!(AgentStatus::parse("down"), Ok(AgentStatus::Down));
    assert!(AgentStatus::parse("idle").is_err());
    assert_eq!(TaskMode::Sequence.as_str(), "sequence");
    assert_eq!(TaskMode::Aggregation.as_str(), "aggregation");
    assert_eq!(TaskMode::Max.as_str(), "max");
    assert_eq!(TaskMode::Min.as_str(), "min");
}

#[test]
fn random_ids_and_clock_are_used_for_new_rows() {
    let mut store = Store::new();
    let a = store.add_physical_agent(agent("10.0.0.1", 8000, 4, 10)).unwrap();
    let b = store.add_physical_agent(agent("10.0.0.2", 8000, 4, 10)).unwrap();
    assert_ne!(a, b);
    let j = store.submit(job(1, 1, 10, None)).unwrap();
    let k = store.submit(job(1, 1, 10, None)).unwrap();
    assert_ne!(j, k);
    assert!(active(&store, j).created_time > 1_600_000_000_000_000);
    let launches = store.dispatch_round(&cfg());
    assert_eq!(launches.len(), 2);
    assert_ne!(launches[0].assignment_id, launches[1].assignment_id);
    let v = store
        .finish_slice(
            launches[0].assignment_id,
            SliceOutcome::Success(counts(&[("1", 10)])),
        )
        .unwrap();
    assert_eq!(v, SliceVerdict::Succeeded);
}

fn raw_job(id: u128, v: u64, created: i64, status: TaskActiveStatus) -> qsched::store::Job {
    qsched::store::Job {
        id,
        source: String::new(),
        qubits: 1,
        depth: 1,
        shots: 10,
        exec_shots: 0,
        v_exec_shots: v,
        mode: None,
        result: None,
        status,
        created_time: created,
        updated_time: created,
    }
}

#[test]
fn waiting_batch_is_in_priority_order() {
    let mut store = Store::new();
    store.active.push(raw_job(1, 5, 1, TaskActiveStatus::Waiting));
    store.active.push(raw_job(2, 2, 9, TaskActiveStatus::Waiting));
    store.active.push(raw_job(3, 0, 0, TaskActiveStatus::Running));
    store.active.push(raw_job(4, 2, 3, TaskActiveStatus::Waiting));
    store.active.push(raw_job(5, 5, 1, TaskActiveStatus::Waiting));
    let ids: Vec<u128> = store.get_asc_tasks().iter().map(|j| j.id).collect();
    assert_eq!(ids, vec![4, 2, 1, 5]);
    assert_eq!(store.waiting_positions(), vec![3, 1, 0, 4]);
    assert_eq!(store.get_min_vexec_shots(), 2);
}

#[test]
fn waiting_batch_of_empty_store_is_empty() {
    let store = Store::new();
    assert!(store.get_asc_tasks().is_empty());
}

#[test]
fn agents_by_address_with_and_without_port() {
    let mut store = Store::new();
    store.add_physical_agent_with(1, agent("10.0.0.1", 8000, 4, 10)).unwrap();
    store.add_physical_agent_with(2, agent("10.0.0.1", 8001, 4, 10)).unwrap();
    let host = qsched::registry::AgentAddress {
        ip: "10.0.0.1".to_string(),
        hostname: None,
        port: None,
    };
    assert_eq!(store.get_agents_by_address(&host).len(), 2);
    let exact = qsched::registry::AgentAddress {
        ip: "10.0.0.1".to_string(),
        hostname: None,
        port: Some(8001),
    };
    let found = store.get_agents_by_address(&exact);
    assert_eq!(found.len(), 1);
    assert_eq!(found[0].id, 2);
    let missing = qsched::registry::AgentAddress {
        ip: "10.0.0.3".to_string(),
        hostname: None,
        port: Some(8001),
    };
    assert!(store.get_agents_by_address(&missing).is_empty());
}

#[test]
fn running_assignments_account_for_lent_qubits() {
    let mut store = Store::new();
    let a = store.add_physical_agent_with(1, agent("10.0.0.1", 8000, 8, 200)).unwrap();
    store.submit_with(100, 1, job(3, 100, 400, None)).unwrap();
    store.submit_with(101, 2, job(2, 100, 400, None)).unwrap();
    let l = store.dispatch_round_with(&cfg(), &vec![1, 2]);
    assert_eq!(l.len(), 2);
    let held: u32 = store
        .get_assignment_by_agent(a)
        .iter()
        .filter(|x| x.status == AssignmentStatus::Running)
        .map(|x| x.qubits)
        .sum();
    let ag = store.get_physical_agent(a).unwrap();
    assert_eq!(held, ag.qubit_count - ag.qubit_idle);
    assert_eq!(held, 5);
    store
        .finish_slice_at(1, SliceOutcome::Success(counts(&[("0", 20)])), 3)
        .unwrap();
    let ag = store.get_physical_agent(a).unwrap();
    assert_eq!(ag.qubit_count - ag.qubit_idle, 2);
    // a job never runs two slices at once
    let again = store.dispatch_round_with(&cfg(), &vec![3, 4]);
    assert_eq!(again.len(), 1);
    assert_eq!(again[0].task_id, 100);
}

#[test]
fn merging_a_slice_twice_counts_it_twice() {
    let prev = counts(&[("00", 10), ("01", 4)]);
    let body = counts(&[("01", 3), ("11", 5)]);
    let once = merge_memory(None, &prev, &body).unwrap();
    let twice = merge_memory(None, &once, &body).unwrap();
    assert_eq!(once, counts(&[("00", 10), ("01", 7), ("11", 5)]));
    assert_eq!(twice, counts(&[("00", 10), ("01", 10), ("11", 10)]));
    assert_ne!(once, twice);
}

#[test]
fn first_submission_and_first_agent_always_succeed() {
    let mut store = Store::new();
    assert!(store.add_physical_agent(agent("10.0.0.1", 8000, 4, 10)).is_ok());
    let mut empty_jobs = Store::new();
    empty_jobs.add_physical_agent_with(1, agent("10.0.0.1", 8000, 4, 10)).unwrap();
    assert!(empty_jobs.submit(job(1, 1, 10, None)).is_ok());
    let launches = empty_jobs.dispatch_round(&cfg());
    assert_eq!(launches.len(), 1);
}
