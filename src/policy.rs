//! Per-queue scheduling policies and the dispatcher that advances a queue
//! by one tick.
use vstd::prelude::*;
use std::collections::VecDeque;
use crate::task::{State, Task};

verus! {

/// The scheduling policy of one queue.
#[derive(Clone, Copy, Debug, PartialEq, Eq, Structural)]
pub enum Algorithm {
    /// First come, first served: the head of the queue runs until it finishes.
    ArrivalOrder,
    /// Shortest remaining processing time first, ties by earlier arrival,
    /// then by position in the queue.
    ProcessingTimeOrder,
    /// Round robin with a quantum and a pre-emption flag. New arrivals always
    /// join the tail, so the flag does not change the order of service.
    RoundRobin(u32, bool),
}

/// A policy is usable when a round-robin quantum is positive.
pub open spec fn algorithm_wf(alg: Algorithm) -> bool {
    match alg {
        Algorithm::RoundRobin(quantum, _) => quantum > 0,
        _ => true,
    }
}

/// A task that a queue with policy `alg` may hold: it still owes work, has
/// been admitted, and under round robin has used less than its quantum.
pub open spec fn task_fits(t: Task, alg: Algorithm) -> bool {
    &&& t.processing_time >= 1
    &&& t.state != State::Waiting
    &&& match alg {
        Algorithm::RoundRobin(quantum, _) => t.run_ticks < quantum,
        _ => true,
    }
}

/// Every task of `q` fits a queue with policy `alg`.
pub open spec fn queue_wf(q: Seq<Task>, alg: Algorithm) -> bool {
    forall|i: int| 0 <= i < q.len() ==> task_fits(#[trigger] q[i], alg)
}

/// `a` is served strictly before `b` under processing-time order.
pub open spec fn runs_before(a: Task, b: Task) -> bool {
    a.processing_time < b.processing_time || (a.processing_time == b.processing_time
        && a.arrival_time < b.arrival_time)
}

/// Index of the first task of `q` that no other task runs before.
pub open spec fn shortest_index(q: Seq<Task>) -> int
    decreases q.len(),
{
    if q.len() <= 1 {
        0
    } else {
        let k = shortest_index(q.drop_last());
        if runs_before(q.last(), q[k]) {
            q.len() - 1
        } else {
            k
        }
    }
}

/// Index of the task that policy `alg` runs next in the non-empty queue `q`.
pub open spec fn selected_index(q: Seq<Task>, alg: Algorithm) -> int {
    match alg {
        Algorithm::ProcessingTimeOrder => shortest_index(q),
        _ => 0,
    }
}

/// Task `t` after it has run for one tick under policy `alg`.
pub open spec fn run_one_tick(t: Task, alg: Algorithm) -> Task {
    Task {
        name: t.name,
        arrival_time: t.arrival_time,
        processing_time: (t.processing_time - 1) as u32,
        finish_time: t.finish_time,
        priority: t.priority,
        state: State::Executing,
        run_ticks: match alg {
            Algorithm::RoundRobin(_, _) => (t.run_ticks + 1) as u32,
            _ => t.run_ticks,
        },
    }
}

/// Under round robin, `t` has used its whole quantum.
pub open spec fn quantum_expired(t: Task, alg: Algorithm) -> bool {
    match alg {
        Algorithm::RoundRobin(quantum, _) => t.run_ticks >= quantum,
        _ => false,
    }
}

/// Task `t` pre-empted: back to `Executable` with a fresh quantum.
pub open spec fn preempted(t: Task) -> Task {
    Task {
        name: t.name,
        arrival_time: t.arrival_time,
        processing_time: t.processing_time,
        finish_time: t.finish_time,
        priority: t.priority,
        state: State::Executable,
        run_ticks: 0,
    }
}

/// Task `t` finished during tick `time`.
pub open spec fn completed(t: Task, time: int) -> Task {
    Task {
        name: t.name,
        arrival_time: t.arrival_time,
        processing_time: t.processing_time,
        finish_time: (time + 1) as u32,
        priority: t.priority,
        state: t.state,
        run_ticks: t.run_ticks,
    }
}

/// The queue after one tick of policy `alg`: the selected task runs; it
/// leaves when it has no work left, goes to the tail when its round-robin
/// quantum is used up, and otherwise keeps its place.
pub open spec fn queue_after(q: Seq<Task>, alg: Algorithm) -> Seq<Task> {
    if q.len() == 0 {
        q
    } else {
        let i = selected_index(q, alg);
        let t = run_one_tick(q[i], alg);
        if t.processing_time == 0 {
            q.remove(i)
        } else if quantum_expired(t, alg) {
            q.remove(i).push(preempted(t))
        } else {
            q.update(i, t)
        }
    }
}

/// The task that finishes in one tick of policy `alg` on `q`, if any.
pub open spec fn finished_task(q: Seq<Task>, alg: Algorithm, time: int) -> Option<Task> {
    if q.len() == 0 {
        None
    } else {
        let t = run_one_tick(q[selected_index(q, alg)], alg);
        if t.processing_time == 0 {
            Some(completed(t, time))
        } else {
            None
        }
    }
}

/// The task a policy selects lies in the queue.
pub proof fn lemma_selected_index_bounds(q: Seq<Task>, alg: Algorithm)
    requires
        q.len() > 0,
    ensures
        0 <= selected_index(q, alg) < q.len(),
{
    lemma_shortest_index_bounds(q);
}

proof fn lemma_shortest_index_bounds(q: Seq<Task>)
    requires
        q.len() > 0,
    ensures
        0 <= shortest_index(q) < q.len(),
    decreases q.len(),
{
    if q.len() > 1 {
        lemma_shortest_index_bounds(q.drop_last());
    }
}

/// Picks the task that policy `algorithm` runs next.
fn select_task(task_queue: &VecDeque<Task>, algorithm: &Algorithm) -> (i: usize)
    requires
        task_queue@.len() > 0,
    ensures
        i == selected_index(task_queue@, *algorithm),
        i < task_queue@.len(),
{
    match algorithm {
        Algorithm::ProcessingTimeOrder => {
            let n = task_queue.len();
            let mut best: usize = 0;
            let mut k: usize = 1;
            while k < n
                invariant
                    n == task_queue@.len(),
                    1 <= k <= n,
                    best == shortest_index(task_queue@.subrange(0, k as int)),
                    best < k,
                decreases n - k,
            {
                let ghost prefix = task_queue@.subrange(0, k as int + 1);
                assert(prefix.drop_last() =~= task_queue@.subrange(0, k as int));
                let cand = &task_queue[k];
                let cur = &task_queue[best];
                if cand.processing_time < cur.processing_time || (cand.processing_time
                    == cur.processing_time && cand.arrival_time < cur.arrival_time) {
                    best = k;
                }
                k = k + 1;
            }
            assert(task_queue@.subrange(0, n as int) =~= task_queue@);
            best
        },
        _ => 0,
    }
}

/// Runs the task that `algorithm` selects in `task_queue` for the tick
/// `[time, time + 1)` and returns it when it has finished.
pub fn dispatch(task_queue: &mut VecDeque<Task>, algorithm: &Algorithm, time: u32) -> (r: Option<
    Task,
>)
    requires
        queue_wf(old(task_queue)@, *algorithm),
        time < u32::MAX,
    ensures
        final(task_queue)@ == queue_after(old(task_queue)@, *algorithm),
        r == finished_task(old(task_queue)@, *algorithm, time as int),
{
    if task_queue.len() == 0 {
        return None;
    }
    let i = select_task(task_queue, algorithm);
    let ghost q = task_queue@;
    let mut task = match task_queue.remove(i) {
        Some(t) => t,
        None => { return None; },
    };
    assert(q[i as int].processing_time >= 1);
    task.processing_time = task.processing_time - 1;
    task.state = State::Executing;
    let expired = match algorithm {
        Algorithm::RoundRobin(quantum, _) => {
            task.run_ticks = task.run_ticks + 1;
            task.run_ticks >= *quantum
        },
        _ => false,
    };
    if task.processing_time == 0 {
        task.finish_time = time + 1;
        return Some(task);
    }
    if expired {
        task.state = State::Executable;
        task.run_ticks = 0;
        task_queue.push_back(task);
    } else {
        task_queue.insert(i, task);
        assert(task_queue@ =~= q.update(i as int, run_one_tick(q[i as int], *algorithm)));
    }
    None
}

} // verus!
