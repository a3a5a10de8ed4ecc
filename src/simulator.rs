//! Admission, the per-tick pass over all queues, and the simulation loop,
//! together with the model of one simulated tick that their contracts use.
use vstd::prelude::*;
use std::collections::VecDeque;
use crate::task::{State, Task, TaskResult, result_of};
use crate::model::{
    SimState,
    simulate,
    initial_state,
    completes_at,
    runnable,
    sim_inv,
    lemma_initial,
    lemma_step,
};
use crate::policy::{
    Algorithm,
    algorithm_wf,
    queue_wf,
    queue_after,
    finished_task,
    dispatch,
    lemma_selected_index_bounds,
};

verus! {

/// The queues of a simulation, in priority order, each with its policy.
pub type QueueList = Vec<(VecDeque<Task>, Algorithm)>;

/// A configuration the simulator rejects before any tick runs.
#[derive(Clone, Copy, Debug, PartialEq, Eq, Structural)]
pub enum ConfigError {
    /// A round-robin policy was given a quantum of zero.
    ZeroQuantum,
    /// A task's priority does not name an existing queue.
    InvalidPriority,
}

/// The queues as sequences of tasks.
pub open spec fn queues_view(ql: Seq<(VecDeque<Task>, Algorithm)>) -> Seq<(Seq<Task>, Algorithm)> {
    Seq::new(ql.len(), |i: int| (ql[i].0@, ql[i].1))
}

proof fn lemma_queues_view_update(ql: Seq<(VecDeque<Task>, Algorithm)>, i: int, x: (VecDeque<Task>, Algorithm))
    requires
        0 <= i < ql.len(),
    ensures
        queues_view(ql.update(i, x)) =~= queues_view(ql).update(i, (x.0@, x.1)),
{
}

proof fn lemma_queues_view_push(ql: Seq<(VecDeque<Task>, Algorithm)>, x: (VecDeque<Task>, Algorithm))
    ensures
        queues_view(ql.push(x)) =~= queues_view(ql).push((x.0@, x.1)),
{
}

/// Task `t` on admission: executable, with a fresh quantum.
pub open spec fn made_executable(t: Task) -> Task {
    Task {
        name: t.name,
        arrival_time: t.arrival_time,
        processing_time: t.processing_time,
        finish_time: t.finish_time,
        priority: t.priority,
        state: State::Executable,
        run_ticks: 0,
    }
}

/// The tasks of the pool `p` that have arrived by tick `time`, admitted,
/// in pool order.
pub open spec fn arrived(p: Seq<Task>, time: int) -> Seq<Task>
    decreases p.len(),
{
    if p.len() == 0 {
        Seq::empty()
    } else if p.last().arrival_time <= time {
        arrived(p.drop_last(), time).push(made_executable(p.last()))
    } else {
        arrived(p.drop_last(), time)
    }
}

/// The tasks of the pool `p` that arrive after tick `time`, in pool order.
pub open spec fn not_arrived(p: Seq<Task>, time: int) -> Seq<Task>
    decreases p.len(),
{
    if p.len() == 0 {
        Seq::empty()
    } else if p.last().arrival_time <= time {
        not_arrived(p.drop_last(), time)
    } else {
        not_arrived(p.drop_last(), time).push(p.last())
    }
}

/// The queues after task `t` joins the tail of the queue its priority names.
pub open spec fn enqueue(qs: Seq<(Seq<Task>, Algorithm)>, t: Task) -> Seq<(Seq<Task>, Algorithm)> {
    let p = t.priority as int;
    qs.update(p, (qs[p].0.push(t), qs[p].1))
}

/// The queues after the tasks `ts` join them one by one, in order.
pub open spec fn enqueue_all(qs: Seq<(Seq<Task>, Algorithm)>, ts: Seq<Task>) -> Seq<
    (Seq<Task>, Algorithm),
>
    decreases ts.len(),
{
    if ts.len() == 0 {
        qs
    } else {
        enqueue(enqueue_all(qs, ts.drop_last()), ts.last())
    }
}

/// Every queue after each has run for one tick.
pub open spec fn tick_queues(qs: Seq<(Seq<Task>, Algorithm)>) -> Seq<(Seq<Task>, Algorithm)> {
    Seq::new(qs.len(), |i: int| (queue_after(qs[i].0, qs[i].1), qs[i].1))
}

/// The results of one tick over the queues `qs`, in queue order.
pub open spec fn tick_results(qs: Seq<(Seq<Task>, Algorithm)>, time: int) -> Seq<TaskResult>
    decreases qs.len(),
{
    if qs.len() == 0 {
        Seq::empty()
    } else {
        let prev = tick_results(qs.drop_last(), time);
        match finished_task(qs.last().0, qs.last().1, time) {
            Some(t) => prev.push(result_of(t, time)),
            None => prev,
        }
    }
}

/// A queue that may be dispatched during tick `time`: its policy is usable,
/// its tasks fit it, and all of them have arrived.
pub open spec fn queue_ready(q: (Seq<Task>, Algorithm), time: int) -> bool {
    &&& algorithm_wf(q.1)
    &&& queue_wf(q.0, q.1)
    &&& forall|j: int| 0 <= j < q.0.len() ==> #[trigger] q.0[j].arrival_time <= time
}

/// Every queue may be dispatched during tick `time`.
pub open spec fn queues_ready(qs: Seq<(Seq<Task>, Algorithm)>, time: int) -> bool {
    forall|i: int| 0 <= i < qs.len() ==> queue_ready(#[trigger] qs[i], time)
}

/// Every task names an existing queue.
pub open spec fn priorities_valid(tasks: Seq<Task>, n: int) -> bool {
    forall|i: int| 0 <= i < tasks.len() ==> (#[trigger] tasks[i].priority as int) < n
}

/// Where a task arriving at `a` goes in `s`: before the first task that
/// arrives later than `a`, after all others.
pub open spec fn arrival_slot(s: Seq<Task>, a: u32) -> int
    decreases s.len(),
{
    if s.len() == 0 {
        0
    } else if s[0].arrival_time > a {
        0
    } else {
        1 + arrival_slot(s.subrange(1, s.len() as int), a)
    }
}

/// `s` ordered by arrival time, tasks that arrive at the same tick kept in
/// the order they have in `s`.
pub open spec fn by_arrival(s: Seq<Task>) -> Seq<Task>
    decreases s.len(),
{
    if s.len() == 0 {
        s
    } else {
        let sorted = by_arrival(s.drop_last());
        sorted.insert(arrival_slot(sorted, s.last().arrival_time), s.last())
    }
}

/// The tasks of `s` come in non-decreasing order of arrival.
pub open spec fn arrival_sorted(s: Seq<Task>) -> bool {
    forall|i: int, j: int| 0 <= i < j < s.len() ==> s[i].arrival_time <= s[j].arrival_time
}

proof fn lemma_arrival_slot(s: Seq<Task>, a: u32)
    ensures
        0 <= arrival_slot(s, a) <= s.len(),
        forall|i: int| 0 <= i < arrival_slot(s, a) ==> s[i].arrival_time <= a,
        arrival_slot(s, a) < s.len() ==> s[arrival_slot(s, a)].arrival_time > a,
    decreases s.len(),
{
    if s.len() > 0 && s[0].arrival_time <= a {
        let t = s.subrange(1, s.len() as int);
        lemma_arrival_slot(t, a);
        assert forall|i: int| 0 <= i < arrival_slot(s, a) implies s[i].arrival_time <= a by {
            if i > 0 {
                assert(s[i] == t[i - 1]);
            }
        }
    }
}

/// Ordering by arrival keeps every task, and yields an arrival-sorted
/// sequence.
pub proof fn lemma_by_arrival(s: Seq<Task>)
    ensures
        by_arrival(s).len() == s.len(),
        arrival_sorted(by_arrival(s)),
    decreases s.len(),
{
    if s.len() > 0 {
        let sorted = by_arrival(s.drop_last());
        lemma_by_arrival(s.drop_last());
        let t = s.last();
        let k = arrival_slot(sorted, t.arrival_time);
        lemma_arrival_slot(sorted, t.arrival_time);
        let r = sorted.insert(k, t);
        assert forall|i: int, j: int| 0 <= i < j < r.len() implies r[i].arrival_time
            <= r[j].arrival_time by {
            if j < k {
                assert(r[i] == sorted[i] && r[j] == sorted[j]);
            } else if j == k {
                assert(r[i] == sorted[i]);
            } else if i < k {
                assert(r[i] == sorted[i] && r[j] == sorted[j - 1]);
                assert(sorted[i].arrival_time <= t.arrival_time);
                assert(sorted[k].arrival_time > t.arrival_time);
            } else if i == k {
                assert(r[j] == sorted[j - 1]);
                assert(sorted[k].arrival_time > t.arrival_time);
            } else {
                assert(r[i] == sorted[i - 1] && r[j] == sorted[j - 1]);
            }
        }
    }
}

/// Tasks that all arrive at one tick are already in arrival order.
pub proof fn lemma_by_arrival_same_tick(s: Seq<Task>, a: u32)
    requires
        forall|i: int| 0 <= i < s.len() ==> (#[trigger] s[i]).arrival_time == a,
    ensures
        by_arrival(s) == s,
    decreases s.len(),
{
    if s.len() > 0 {
        let d = s.drop_last();
        assert forall|i: int| 0 <= i < d.len() implies (#[trigger] d[i]).arrival_time == a by {
            assert(d[i] == s[i]);
        }
        lemma_by_arrival_same_tick(d, a);
        lemma_slot_at_end(d, a);
        assert(s.last() == s[s.len() - 1]);
        assert(d.insert(d.len() as int, s.last()) =~= s);
    }
}

proof fn lemma_slot_at_end(s: Seq<Task>, a: u32)
    requires
        forall|i: int| 0 <= i < s.len() ==> (#[trigger] s[i]).arrival_time <= a,
    ensures
        arrival_slot(s, a) == s.len(),
    decreases s.len(),
{
    if s.len() > 0 {
        let t = s.subrange(1, s.len() as int);
        assert forall|i: int| 0 <= i < t.len() implies (#[trigger] t[i]).arrival_time <= a by {
            assert(t[i] == s[i + 1]);
        }
        lemma_slot_at_end(t, a);
        assert(s[0].arrival_time <= a);
    }
}

/// Inserts `task` into the arrival-sorted `sorted` after every task that
/// arrives no later than it.
fn insert_by_arrival(sorted: &mut Vec<Task>, task: Task)
    ensures
        final(sorted)@ == old(sorted)@.insert(
            arrival_slot(old(sorted)@, task.arrival_time),
            task,
        ),
{
    let ghost s = sorted@;
    let a = task.arrival_time;
    let mut pos: usize = 0;
    proof {
        lemma_arrival_slot(s, a);
    }
    assert(s.subrange(0, s.len() as int) =~= s);
    while pos < sorted.len() && sorted[pos].arrival_time <= a
        invariant
            sorted@ == s,
            pos <= s.len(),
            arrival_slot(s, a) == pos + arrival_slot(s.subrange(pos as int, s.len() as int), a),
        decreases s.len() - pos,
    {
        let ghost t = s.subrange(pos as int, s.len() as int);
        assert(t[0] == s[pos as int]);
        assert(t.subrange(1, t.len() as int) =~= s.subrange(pos + 1, s.len() as int));
        pos = pos + 1;
    }
    let ghost t = s.subrange(pos as int, s.len() as int);
    if pos < sorted.len() {
        assert(t[0] == s[pos as int]);
    }
    sorted.insert(pos, task);
}

/// Moves every task of the pool that has arrived by `time` out of it, makes
/// it executable, and returns those tasks in order of arrival, tasks that
/// arrived at the same tick in pool order; or `None` when there are none.
pub fn fetch_new_tasks(task_list: &mut Vec<Task>, time: u32) -> (r: Option<Vec<Task>>)
    ensures
        final(task_list)@ == not_arrived(old(task_list)@, time as int),
        match r {
            Some(v) => {
                &&& v@ == by_arrival(arrived(old(task_list)@, time as int))
                &&& arrival_sorted(v@)
                &&& v@.len() > 0
            },
            None => arrived(old(task_list)@, time as int).len() == 0,
        },
{
    let ghost p = task_list@;
    let mut new_tasks: Vec<Task> = Vec::new();
    let mut rest: Vec<Task> = Vec::new();
    let ghost mut k: int = 0;
    while task_list.len() > 0
        invariant
            0 <= k <= p.len(),
            task_list@ == p.subrange(k, p.len() as int),
            new_tasks@ == by_arrival(arrived(p.subrange(0, k), time as int)),
            rest@ == not_arrived(p.subrange(0, k), time as int),
        decreases task_list@.len(),
    {
        let mut task = task_list.remove(0);
        assert(p.subrange(0, k + 1).drop_last() =~= p.subrange(0, k));
        if task.arrival_time <= time {
            task.state = State::Executable;
            task.run_ticks = 0;
            let ghost before = arrived(p.subrange(0, k), time as int);
            assert(arrived(p.subrange(0, k + 1), time as int).drop_last() =~= before);
            insert_by_arrival(&mut new_tasks, task);
        } else {
            rest.push(task);
        }
        proof {
            k = k + 1;
        }
        assert(task_list@ =~= p.subrange(k, p.len() as int));
    }
    assert(p.subrange(0, p.len() as int) =~= p);
    proof {
        lemma_by_arrival(arrived(p, time as int));
    }
    *task_list = rest;
    if new_tasks.len() > 0 {
        Some(new_tasks)
    } else {
        None
    }
}

/// Appends `task` to the tail of the queue its priority names.
pub fn add_task(query_list: &mut QueueList, task: Task)
    requires
        (task.priority as int) < old(query_list)@.len(),
    ensures
        queues_view(final(query_list)@) == enqueue(queues_view(old(query_list)@), task),
{
    let ghost before = queues_view(query_list@);
    let p = task.priority as usize;
    let ghost before_ql = query_list@;
    let (mut queue, algorithm) = query_list.remove(p);
    queue.push_back(task);
    query_list.insert(p, (queue, algorithm));
    assert(query_list@ =~= before_ql.update(p as int, (queue, algorithm)));
    proof {
        lemma_queues_view_update(before_ql, p as int, (queue, algorithm));
    }
    assert(queues_view(query_list@) =~= enqueue(before, task));
}

/// Records `task` as finished during tick `time`.
pub fn add_result(result_list: &mut Vec<TaskResult>, time: u32, task: Task)
    requires
        task.arrival_time <= time,
        time < u32::MAX,
    ensures
        final(result_list)@ == old(result_list)@.push(result_of(task, time as int)),
{
    let finish_time = time + 1;
    let turnaround_time = finish_time - task.arrival_time;
    result_list.push(TaskResult::new(task.name, finish_time, turnaround_time));
}

/// Advances every queue by one tick, in queue order, and records each task
/// that finishes.
pub fn dispatch_task(query_list: &mut QueueList, time: u32, result_list: &mut Vec<TaskResult>)
    requires
        queues_ready(queues_view(old(query_list)@), time as int),
        time < u32::MAX,
    ensures
        queues_view(final(query_list)@) == tick_queues(queues_view(old(query_list)@)),
        final(result_list)@ == old(result_list)@ + tick_results(
            queues_view(old(query_list)@),
            time as int,
        ),
{
    let ghost qs = queues_view(query_list@);
    let ghost rs = result_list@;
    let n = query_list.len();
    let mut i: usize = 0;
    while i < n
        invariant
            n == query_list@.len(),
            n == qs.len(),
            i <= n,
            qs == queues_view(old(query_list)@),
            queues_ready(qs, time as int),
            time < u32::MAX,
            queues_view(query_list@) == tick_queues(qs).subrange(0, i as int) + qs.subrange(
                i as int,
                n as int,
            ),
            result_list@ == rs + tick_results(qs.subrange(0, i as int), time as int),
        decreases n - i,
    {
        let ghost before_ql = query_list@;
        let ghost before = queues_view(query_list@);
        assert(before[i as int] == qs[i as int]);
        assert((tick_queues(qs).subrange(0, i as int) + qs.subrange(i as int, n as int))[i as int]
            == qs[i as int]);
        let (mut queue, algorithm) = query_list.remove(i);
        assert(queue@ == qs[i as int].0 && algorithm == qs[i as int].1);
        assert(queue_wf(qs[i as int].0, qs[i as int].1));
        let finished = dispatch(&mut queue, &algorithm, time);
        let ghost entry = (queue@, algorithm);
        assert(entry == tick_queues(qs)[i as int]);
        query_list.insert(i, (queue, algorithm));
        assert(query_list@ =~= before_ql.update(i as int, (queue, algorithm)));
        proof {
            lemma_queues_view_update(before_ql, i as int, (queue, algorithm));
        }
        assert(qs.subrange(0, i as int + 1).drop_last() =~= qs.subrange(0, i as int));
        match finished {
            Some(task) => {
                proof {
                    lemma_selected_index_bounds(qs[i as int].0, qs[i as int].1);
                }
                add_result(result_list, time, task);
            },
            None => {},
        }
        assert(queues_view(query_list@) =~= tick_queues(qs).subrange(0, i as int + 1)
            + qs.subrange(i as int + 1, n as int));
        i = i + 1;
    }
    assert(tick_queues(qs).subrange(0, n as int) + qs.subrange(n as int, n as int) =~= tick_queues(qs));
    assert(qs.subrange(0, n as int) =~= qs);
}

/// Checks that every task names an existing queue.
pub fn validation(task_list: &Vec<Task>, query_list: &QueueList) -> (r: Result<(), ConfigError>)
    ensures
        r is Ok <==> priorities_valid(task_list@, query_list@.len() as int),
        r is Err ==> r == Err::<(), ConfigError>(ConfigError::InvalidPriority),
{
    let max_priority = query_list.len();
    let mut i: usize = 0;
    while i < task_list.len()
        invariant
            max_priority == query_list@.len(),
            i <= task_list@.len(),
            priorities_valid(task_list@.subrange(0, i as int), max_priority as int),
        decreases task_list@.len() - i,
    {
        if task_list[i].priority as usize >= max_priority {
            return Err(ConfigError::InvalidPriority);
        }
        assert forall|j: int| 0 <= j < i + 1 implies (#[trigger] task_list@.subrange(
            0,
            i as int + 1,
        )[j].priority as int) < max_priority by {
            if j < i {
                assert(task_list@.subrange(0, i as int + 1)[j] == task_list@.subrange(0, i as int)[j]);
            }
        }
        i = i + 1;
    }
    assert(task_list@.subrange(0, i as int) =~= task_list@);
    Ok(())
}

/// One empty queue for each policy, in the order given, or
/// `ZeroQuantum` when a round-robin policy has a quantum of zero.
pub fn create_queue_list(algorithm_list: Vec<Algorithm>) -> (r: Result<QueueList, ConfigError>)
    ensures
        match r {
            Ok(ql) => {
                &&& forall|i: int| 0 <= i < algorithm_list@.len() ==> algorithm_wf(#[trigger] algorithm_list@[i])
                &&& queues_view(ql@) == Seq::new(
                    algorithm_list@.len(),
                    |i: int| (Seq::<Task>::empty(), algorithm_list@[i]),
                )
            },
            Err(e) => {
                &&& e == ConfigError::ZeroQuantum
                &&& exists|i: int| 0 <= i < algorithm_list@.len() && !algorithm_wf(#[trigger] algorithm_list@[i])
            },
        },
{
    let n = algorithm_list.len();
    let mut queue_list: QueueList = Vec::with_capacity(n);
    let mut i: usize = 0;
    while i < n
        invariant
            n == algorithm_list@.len(),
            i <= n,
            forall|j: int| 0 <= j < i ==> algorithm_wf(#[trigger] algorithm_list@[j]),
            queues_view(queue_list@) == Seq::new(
                i as nat,
                |j: int| (Seq::<Task>::empty(), algorithm_list@[j]),
            ),
        decreases n - i,
    {
        let algorithm = algorithm_list[i];
        match algorithm {
            Algorithm::RoundRobin(quantum, _) => {
                if quantum == 0 {
                    assert(!algorithm_wf(algorithm_list@[i as int]));
                    return Err(ConfigError::ZeroQuantum);
                }
            },
            _ => {},
        }
        let queue: VecDeque<Task> = VecDeque::new();
        let ghost before_ql = queue_list@;
        queue_list.push((queue, algorithm));
        proof {
            lemma_queues_view_push(before_ql, (queue, algorithm));
        }
        assert(queues_view(queue_list@) =~= Seq::new(
            i as nat + 1,
            |j: int| (Seq::<Task>::empty(), algorithm_list@[j]),
        ));
        i = i + 1;
    }
    Ok(queue_list)
}

/// Appends the tasks `tasks` one by one, in order, each to the queue its
/// priority names.
fn add_tasks(query_list: &mut QueueList, tasks: Vec<Task>)
    requires
        forall|j: int|
            0 <= j < tasks@.len() ==> ((#[trigger] tasks@[j]).priority as int) < old(
                query_list,
            )@.len(),
    ensures
        queues_view(final(query_list)@) == enqueue_all(queues_view(old(query_list)@), tasks@),
        final(query_list)@.len() == old(query_list)@.len(),
{
    let ghost ts = tasks@;
    let ghost q0 = queues_view(query_list@);
    let ghost nq = query_list@.len();
    let mut tasks = tasks;
    let ghost mut k: int = 0;
    while tasks.len() > 0
        invariant
            0 <= k <= ts.len(),
            tasks@ == ts.subrange(k, ts.len() as int),
            queues_view(query_list@) == enqueue_all(q0, ts.subrange(0, k)),
            query_list@.len() == nq,
            forall|j: int| 0 <= j < ts.len() ==> ((#[trigger] ts[j]).priority as int) < nq,
        decreases tasks@.len(),
    {
        let task = tasks.remove(0);
        assert(task == ts[k]);
        add_task(query_list, task);
        assert(ts.subrange(0, k + 1).drop_last() =~= ts.subrange(0, k));
        proof {
            k = k + 1;
        }
        assert(tasks@ =~= ts.subrange(k, ts.len() as int));
    }
    assert(ts.subrange(0, ts.len() as int) =~= ts);
}

/// The simulation state that the pool, the queues, the results and the
/// clock make up.
pub open spec fn state_of(
    pending: Seq<Task>,
    ql: Seq<(VecDeque<Task>, Algorithm)>,
    results: Seq<TaskResult>,
    time: int,
) -> SimState {
    SimState { pending, queues: queues_view(ql), results, time }
}

/// Runs the simulation to completion: each tick admits the tasks that have
/// arrived, advances every queue once, and records the tasks that finish.
/// Fails with `InvalidPriority`, before any tick, when a task names a queue
/// that does not exist.
pub fn run_simulator(query_list: QueueList, task_list: Vec<Task>) -> (r: Result<
    Vec<TaskResult>,
    ConfigError,
>)
    requires
        runnable(queues_view(query_list@), task_list@),
    ensures
        r is Err <==> !priorities_valid(task_list@, query_list@.len() as int),
        r is Err ==> r == Err::<Vec<TaskResult>, ConfigError>(ConfigError::InvalidPriority),
        match r {
            Ok(v) => exists|n: nat|
                {
                    &&& completes_at(
                        initial_state(queues_view(query_list@), task_list@),
                        task_list@.len() as int,
                        n,
                    )
                    &&& v@ == #[trigger] simulate(
                        initial_state(queues_view(query_list@), task_list@),
                        n,
                    ).results
                },
            Err(_) => true,
        },
{
    match validation(&task_list, &query_list) {
        Err(e) => {
            return Err(e);
        },
        Ok(()) => {},
    }
    let ghost init = initial_state(queues_view(query_list@), task_list@);
    let ghost tasks = task_list@;
    let ghost nq = query_list@.len() as int;
    let mut query_list = query_list;
    let mut task_list = task_list;
    let mut result_list: Vec<TaskResult> = Vec::new();
    let mut time: u32 = 0;
    let task_list_len = task_list.len();
    proof {
        lemma_initial(queues_view(query_list@), task_list@);
        assert(state_of(task_list@, query_list@, result_list@, 0) =~= simulate(init, 0));
    }
    while result_list.len() < task_list_len
        invariant
            task_list_len == tasks.len(),
            nq == query_list@.len(),
            state_of(task_list@, query_list@, result_list@, time as int) == simulate(
                init,
                time as nat,
            ),
            sim_inv(simulate(init, time as nat), tasks, nq),
            forall|m: nat| m < time ==> #[trigger] simulate(init, m).results.len() < tasks.len(),
        decreases u32::MAX - time,
    {
        let ghost s = simulate(init, time as nat);
        proof {
            lemma_step(s, tasks, nq);
        }
        match fetch_new_tasks(&mut task_list, time) {
            Some(new_tasks) => {
                proof {
                    lemma_by_arrival_same_tick(arrived(s.pending, s.time), time);
                }
                add_tasks(&mut query_list, new_tasks);
            },
            None => {
                assert(arrived(s.pending, s.time) =~= Seq::<Task>::empty());
            },
        }
        dispatch_task(&mut query_list, time, &mut result_list);
        assert(simulate(init, time as nat + 1) == crate::model::step(s));
        assert(state_of(task_list@, query_list@, result_list@, time as int + 1) =~= crate::model::step(s));
        time = time + 1;
    }
    assert(completes_at(init, tasks.len() as int, time as nat));
    Ok(result_list)
}

} // verus!
