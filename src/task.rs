//! Tasks, their lifecycle state and the record of a finished task.
use vstd::prelude::*;

verus! {

/// Lifecycle state of a task while the simulator holds it.
///
/// A task is `Waiting` in the pending pool, `Executable` once admitted to a
/// queue, and `Executing` after the dispatcher has run it and not pre-empted
/// it since. A finished task leaves the queues and becomes a `TaskResult`.
#[derive(PartialEq, Eq, Structural, Clone, Copy, Debug)]
pub enum State {
    Waiting,
    Executable,
    Executing,
}

/// A schedulable unit of work.
#[derive(Debug)]
pub struct Task {
    /// Label of the task; unique names are the caller's responsibility.
    pub name: &'static str,
    /// Tick at which the task becomes eligible for admission.
    pub arrival_time: u32,
    /// Service ticks still owed to the task.
    pub processing_time: u32,
    /// Tick at which the task finished; 0 until then.
    pub finish_time: u32,
    /// Index of the queue the task is admitted to.
    pub priority: u32,
    pub state: State,
    /// Consecutive ticks run within the current round-robin quantum.
    pub run_ticks: u32,
}

/// What remains of a finished task.
#[derive(Debug, PartialEq)]
pub struct TaskResult {
    pub name: &'static str,
    pub finish_time: u32,
    pub turnaround_time: u32,
}

/// The result recorded for task `t` when it finishes during tick `time`,
/// that is over the interval `[time, time + 1)`.
pub open spec fn result_of(t: Task, time: int) -> TaskResult {
    TaskResult {
        name: t.name,
        finish_time: (time + 1) as u32,
        turnaround_time: (time + 1 - t.arrival_time) as u32,
    }
}

impl TaskResult {
    pub fn new(name: &'static str, finish_time: u32, turnaround_time: u32) -> (r: TaskResult)
        ensures
            r.name == name,
            r.finish_time == finish_time,
            r.turnaround_time == turnaround_time,
    {
        TaskResult { name, finish_time, turnaround_time }
    }

    pub fn name(&self) -> (r: &'static str)
        ensures
            r == self.name,
    {
        self.name
    }

    pub fn finish_time(&self) -> (r: u32)
        ensures
            r == self.finish_time,
    {
        self.finish_time
    }

    pub fn turnaround_time(&self) -> (r: u32)
        ensures
            r == self.turnaround_time,
    {
        self.turnaround_time
    }
}

impl Task {
    pub fn new(name: &'static str, arrival_time: u32, processing_time: u32, priority: u32) -> (r:
        Task)
        ensures
            r.name == name,
            r.arrival_time == arrival_time,
            r.processing_time == processing_time,
            r.finish_time == 0,
            r.priority == priority,
            r.state == State::Waiting,
            r.run_ticks == 0,
    {
        Task {
            name,
            arrival_time,
            processing_time,
            finish_time: 0,
            priority,
            state: State::Waiting,
            run_ticks: 0,
        }
    }
}

} // verus!
