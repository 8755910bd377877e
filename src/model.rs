use vstd::prelude::*;

verus! {

/// How partial results of one job are combined.
#[derive(PartialEq, Eq, Structural, Clone, Copy, Debug)]
pub enum TaskMode {
    Sequence,
    Aggregation,
    Max,
    Min,
}

impl TaskMode {
    /// The form field value sent to an agent.
    pub fn as_str(&self) -> (r: &'static str)
        ensures
            r@ == task_mode_name(*self),
    {
        match self {
            TaskMode::Sequence => "sequence",
            TaskMode::Aggregation => "aggregation",
            TaskMode::Max => "max",
            TaskMode::Min => "min",
        }
    }
}

pub open spec fn task_mode_name(m: TaskMode) -> Seq<char> {
    match m {
        TaskMode::Sequence => "sequence"@,
        TaskMode::Aggregation => "aggregation"@,
        TaskMode::Max => "max"@,
        TaskMode::Min => "min"@,
    }
}

/// Status of a job that is still in the active table.
#[derive(PartialEq, Eq, Structural, Clone, Copy, Debug)]
pub enum TaskActiveStatus {
    Waiting,
    Running,
}

/// Status of a job that has left the active table for good.
#[derive(PartialEq, Eq, Structural, Clone, Copy, Debug)]
pub enum TaskStatus {
    Succeeded,
    Failed,
}

/// Whether an agent takes part in matching.
#[derive(PartialEq, Eq, Structural, Clone, Copy, Debug)]
pub enum AgentStatus {
    Running,
    Down,
}

/// Error returned when text names no agent status.
#[derive(PartialEq, Eq, Structural, Clone, Copy, Debug)]
pub struct ParseAgentStatusError;

impl AgentStatus {
    /// Reads `running` or `down`.
    pub fn parse(s: &str) -> (r: Result<AgentStatus, ParseAgentStatusError>)
        ensures
            s@ == "running"@ <==> r == Ok::<AgentStatus, ParseAgentStatusError>(AgentStatus::Running),
            s@ == "down"@ <==> r == Ok::<AgentStatus, ParseAgentStatusError>(AgentStatus::Down),
            r.is_err() <==> (s@ != "running"@ && s@ != "down"@),
    {
        let running = String::from_str("running");
        let down = String::from_str("down");
        let given = String::from_str(s);
        proof {
            reveal_strlit("running");
            reveal_strlit("down");
            assert("running"@.len() != "down"@.len());
        }
        if given == running {
            Ok(AgentStatus::Running)
        } else if given == down {
            Ok(AgentStatus::Down)
        } else {
            Err(ParseAgentStatusError)
        }
    }
}

/// State of one remote invocation.
#[derive(PartialEq, Eq, Structural, Clone, Copy, Debug)]
pub enum AssignmentStatus {
    Running,
    Succeeded,
    Failed,
}

/// The error kinds of the scheduling engine.
#[derive(PartialEq, Eq, Structural, Clone, Copy, Debug)]
pub enum SchedError {
    /// No agent is large enough for the submission.
    AdmissionRejected,
    /// Another agent already listens on the same address.
    Duplicate,
    /// No job, agent or assignment has the given id.
    NotFound,
    /// The agent has fewer idle qubits than asked for.
    Unavailable,
    /// The agent could not be reached or answered with an error.
    Transport,
    /// The agent's answer cannot be read or merged.
    Decode,
    /// The store refused a row, such as one whose key is taken.
    Storage,
}

} // verus!
