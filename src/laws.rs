//! Properties of the scheduler, stated over the model and proved.
use vstd::prelude::*;
use crate::task::{Task, result_of};
use crate::simulator::{arrived, enqueue_all, tick_results};
use crate::policy::{
    Algorithm,
    queue_wf,
    queue_after,
    finished_task,
    selected_index,
    shortest_index,
    runs_before,
    run_one_tick,
    preempted,
    completed,
    lemma_selected_index_bounds,
};
use crate::model::{
    SimState,
    simulate,
    initial_state,
    completes_at,
    valid_start,
    sim_inv,
    keys,
    result_keys,
    queued_keys,
    lemma_initial,
    lemma_step,
    lemma_keys_len,
    lemma_result_keys_len,
    task_key,
};

verus! {

proof fn lemma_inv_until(
    queues: Seq<(Seq<Task>, Algorithm)>,
    tasks: Seq<Task>,
    n: nat,
    m: nat,
)
    requires
        valid_start(queues, tasks),
        completes_at(initial_state(queues, tasks), tasks.len() as int, n),
        m <= n,
    ensures
        sim_inv(simulate(initial_state(queues, tasks), m), tasks, queues.len() as int),
    decreases m,
{
    let init = initial_state(queues, tasks);
    if m == 0 {
        lemma_initial(queues, tasks);
    } else {
        let k = (m - 1) as nat;
        lemma_inv_until(queues, tasks, n, k);
        assert(simulate(init, k).results.len() < tasks.len());
        lemma_step(simulate(init, k), tasks, queues.len() as int);
    }
}

/// Every task of a completed run is accounted for exactly once: the results
/// are as many as the tasks, and as a multiset their names paired with
/// `finish_time - turnaround_time` are the tasks' names paired with their
/// arrival times. Each result finishes strictly after its task arrived:
/// `1 <= turnaround_time <= finish_time`.
pub proof fn law_results_match_tasks(
    queues: Seq<(Seq<Task>, Algorithm)>,
    tasks: Seq<Task>,
    n: nat,
)
    requires
        valid_start(queues, tasks),
        completes_at(initial_state(queues, tasks), tasks.len() as int, n),
    ensures
        simulate(initial_state(queues, tasks), n).results.len() == tasks.len(),
        result_keys(simulate(initial_state(queues, tasks), n).results) =~= keys(tasks),
        forall|j: int|
            0 <= j < simulate(initial_state(queues, tasks), n).results.len() ==> {
                let r = #[trigger] simulate(initial_state(queues, tasks), n).results[j];
                1 <= r.turnaround_time <= r.finish_time
            },
{
    let s = simulate(initial_state(queues, tasks), n);
    lemma_inv_until(queues, tasks, n, n);
    let kp = keys(s.pending);
    let kq = queued_keys(s.queues);
    let kr = result_keys(s.results);
    lemma_keys_len(tasks);
    lemma_keys_len(s.pending);
    lemma_result_keys_len(s.results);
    assert(kp.add(kq).add(kr).len() == keys(tasks).len());
    assert(kp.len() == 0 && kq.len() == 0);
    assert forall|v| kr.count(v) == keys(tasks).count(v) by {
        assert(kp.add(kq).add(kr).count(v) == keys(tasks).count(v));
        if kp.count(v) > 0 {
            assert(kp.count(v) <= kp.len());
        }
        if kq.count(v) > 0 {
            assert(kq.count(v) <= kq.len());
        }
    }
}

/// The simulation is deterministic: a configuration completes at one tick
/// only, so two runs of it give the same results in the same order.
pub proof fn law_run_is_deterministic(
    queues: Seq<(Seq<Task>, Algorithm)>,
    tasks: Seq<Task>,
    n1: nat,
    n2: nat,
)
    requires
        completes_at(initial_state(queues, tasks), tasks.len() as int, n1),
        completes_at(initial_state(queues, tasks), tasks.len() as int, n2),
    ensures
        n1 == n2,
        simulate(initial_state(queues, tasks), n1).results == simulate(
            initial_state(queues, tasks),
            n2,
        ).results,
{
    let init = initial_state(queues, tasks);
    if n1 < n2 {
        assert(simulate(init, n1).results.len() < tasks.len());
    } else if n2 < n1 {
        assert(simulate(init, n2).results.len() < tasks.len());
    }
}

/// Under arrival order only the head of the queue runs: it finishes and
/// leaves, or keeps its place, and the tasks behind it are untouched and
/// keep their order.
pub proof fn law_arrival_order_serves_head(q: Seq<Task>, time: int)
    requires
        q.len() > 0,
        queue_wf(q, Algorithm::ArrivalOrder),
    ensures
        selected_index(q, Algorithm::ArrivalOrder) == 0,
        q[0].processing_time == 1 ==> queue_after(q, Algorithm::ArrivalOrder) == q.subrange(
            1,
            q.len() as int,
        ),
        q[0].processing_time > 1 ==> queue_after(q, Algorithm::ArrivalOrder) == q.update(
            0,
            run_one_tick(q[0], Algorithm::ArrivalOrder),
        ),
        finished_task(q, Algorithm::ArrivalOrder, time) is Some ==> q[0].processing_time == 1,
{
    assert(q.remove(0) =~= q.subrange(1, q.len() as int));
}

/// A task joins the tail of its queue; the tasks already there keep their
/// places.
pub proof fn law_arrivals_join_the_tail(qs: Seq<(Seq<Task>, Algorithm)>, t: Task)
    requires
        (t.priority as int) < qs.len(),
    ensures
        crate::simulator::enqueue(qs, t)[t.priority as int].0 == qs[t.priority as int].0.push(t),
        forall|i: int|
            0 <= i < qs.len() && i != t.priority ==> #[trigger] crate::simulator::enqueue(qs, t)[i]
                == qs[i],
{
}

proof fn lemma_shortest_is_first_minimum(q: Seq<Task>)
    requires
        q.len() > 0,
    ensures
        0 <= shortest_index(q) < q.len(),
        forall|j: int| 0 <= j < q.len() ==> !runs_before(#[trigger] q[j], q[shortest_index(q)]),
        forall|j: int| 0 <= j < shortest_index(q) ==> runs_before(q[shortest_index(q)], #[trigger] q[j]),
    decreases q.len(),
{
    if q.len() > 1 {
        let d = q.drop_last();
        lemma_shortest_is_first_minimum(d);
        let k = shortest_index(d);
        assert(d[k] == q[k]);
        assert forall|j: int| 0 <= j < d.len() implies #[trigger] q[j] == d[j] by {}
    }
}

/// Under processing-time order the task run next is one that no other task
/// in the queue runs before (no strictly smaller remaining time, and none
/// equal with an earlier arrival), and it runs before every task ahead of it.
pub proof fn law_processing_time_order_selects_shortest(q: Seq<Task>)
    requires
        q.len() > 0,
    ensures
        0 <= selected_index(q, Algorithm::ProcessingTimeOrder) < q.len(),
        forall|j: int|
            0 <= j < q.len() ==> !runs_before(
                #[trigger] q[j],
                q[selected_index(q, Algorithm::ProcessingTimeOrder)],
            ),
        forall|j: int|
            0 <= j < selected_index(q, Algorithm::ProcessingTimeOrder) ==> runs_before(
                q[selected_index(q, Algorithm::ProcessingTimeOrder)],
                #[trigger] q[j],
            ),
{
    lemma_shortest_is_first_minimum(q);
}

/// Under round robin no task runs for `quantum` consecutive ticks without
/// being sent to the tail: every task in the queue has used less than its
/// quantum after each tick, and the head, once it has used the whole
/// quantum without finishing, is moved to the tail with a fresh quantum.
pub proof fn law_round_robin_quantum(q: Seq<Task>, quantum: u32, preemptive: bool)
    requires
        q.len() > 0,
        quantum > 0,
        queue_wf(q, Algorithm::RoundRobin(quantum, preemptive)),
    ensures
        queue_wf(queue_after(q, Algorithm::RoundRobin(quantum, preemptive)), Algorithm::RoundRobin(quantum, preemptive)),
        ({
            let alg = Algorithm::RoundRobin(quantum, preemptive);
            let t = run_one_tick(q[0], alg);
            t.processing_time > 0 && t.run_ticks == quantum ==> queue_after(q, alg)
                == q.subrange(1, q.len() as int).push(preempted(t))
        }),
{
    let alg = Algorithm::RoundRobin(quantum, preemptive);
    assert(q.remove(0) =~= q.subrange(1, q.len() as int));
    crate::model::lemma_queue_wf_after(q, alg);
}

/// A task with one tick of work left finishes in the tick it is selected:
/// its finish time, and that of its result, is the end of that tick.
pub proof fn law_last_tick_finishes(q: Seq<Task>, alg: Algorithm, time: int)
    requires
        q.len() > 0,
        q[selected_index(q, alg)].processing_time == 1,
        0 <= time < u32::MAX,
    ensures
        finished_task(q, alg, time) == Some(completed(run_one_tick(q[selected_index(q, alg)], alg), time)),
        completed(run_one_tick(q[selected_index(q, alg)], alg), time).finish_time == time + 1,
        result_of(completed(run_one_tick(q[selected_index(q, alg)], alg), time), time).finish_time
            == time + 1,
{
}

/// The name and arrival tick of each task of `s`, in order.
pub open spec fn key_seq(s: Seq<Task>) -> Seq<(Seq<char>, int)> {
    s.map_values(|t: Task| task_key(t))
}

/// `q` followed by each batch of `arrivals` in turn.
pub open spec fn joined(q: Seq<Task>, arrivals: Seq<Seq<Task>>) -> Seq<Task>
    decreases arrivals.len(),
{
    if arrivals.len() == 0 {
        q
    } else {
        joined(q, arrivals.drop_last()) + arrivals.last()
    }
}

/// An arrival-order queue that starts as `q` at tick `time` and, at the start
/// of each later tick, receives a batch of `arrivals` at its tail: the queue
/// and the tasks finished so far, after one tick per batch.
pub open spec fn arrival_order_run(q: Seq<Task>, arrivals: Seq<Seq<Task>>, time: int) -> (
    Seq<Task>,
    Seq<Task>,
)
    decreases arrivals.len(),
{
    if arrivals.len() == 0 {
        (q, Seq::empty())
    } else {
        let prev = arrival_order_run(q, arrivals.drop_last(), time);
        let q1 = prev.0 + arrivals.last();
        let t = time + arrivals.len() - 1;
        (
            queue_after(q1, Algorithm::ArrivalOrder),
            match finished_task(q1, Algorithm::ArrivalOrder, t) {
                Some(x) => prev.1.push(x),
                None => prev.1,
            },
        )
    }
}

/// Under arrival order tasks finish in the order in which they stood in the
/// queue, later arrivals after them: at every tick the tasks finished so far
/// are, by name and arrival tick, a prefix of the queue followed by its
/// arrivals, and the queue holds the rest in order. So of two tasks in one
/// such queue, the one ahead finishes no later than the one behind.
pub proof fn law_arrival_order_finishes_in_queue_order(
    q: Seq<Task>,
    arrivals: Seq<Seq<Task>>,
    time: int,
)
    ensures
        key_seq(arrival_order_run(q, arrivals, time).1) + key_seq(
            arrival_order_run(q, arrivals, time).0,
        ) == key_seq(joined(q, arrivals)),
        key_seq(arrival_order_run(q, arrivals, time).1) == key_seq(joined(q, arrivals)).subrange(
            0,
            arrival_order_run(q, arrivals, time).1.len() as int,
        ),
    decreases arrivals.len(),
{
    let r = arrival_order_run(q, arrivals, time);
    let full = key_seq(joined(q, arrivals));
    if arrivals.len() == 0 {
        assert(key_seq(r.1) + key_seq(r.0) =~= full);
    } else {
        let d = arrivals.drop_last();
        law_arrival_order_finishes_in_queue_order(q, d, time);
        let prev = arrival_order_run(q, d, time);
        let q1 = prev.0 + arrivals.last();
        let t = time + arrivals.len() - 1;
        let alg = Algorithm::ArrivalOrder;
        assert(key_seq(q1) =~= key_seq(prev.0) + key_seq(arrivals.last()));
        assert(key_seq(joined(q, arrivals)) =~= key_seq(joined(q, d)) + key_seq(arrivals.last()));
        if q1.len() > 0 {
            let x = run_one_tick(q1[0], alg);
            if x.processing_time == 0 {
                assert(q1.remove(0) =~= q1.subrange(1, q1.len() as int));
                assert(key_seq(prev.1.push(completed(x, t))) + key_seq(q1.remove(0))
                    =~= key_seq(prev.1) + key_seq(q1));
            } else {
                assert(key_seq(q1.update(0, x)) =~= key_seq(q1));
            }
        }
        assert(key_seq(r.1) + key_seq(r.0) =~= full);
    }
    assert(key_seq(r.1) =~= full.subrange(0, r.1.len() as int)) by {
        assert((key_seq(r.1) + key_seq(r.0)).subrange(0, r.1.len() as int) =~= key_seq(r.1));
    }
}

/// The tasks of `ts` whose priority names queue `k`, in order.
pub open spec fn for_queue(ts: Seq<Task>, k: int) -> Seq<Task>
    decreases ts.len(),
{
    if ts.len() == 0 {
        ts
    } else if ts.last().priority == k {
        for_queue(ts.drop_last(), k).push(ts.last())
    } else {
        for_queue(ts.drop_last(), k)
    }
}

proof fn lemma_enqueue_all_at(qs: Seq<(Seq<Task>, Algorithm)>, ts: Seq<Task>, k: int)
    requires
        0 <= k < qs.len(),
        forall|j: int| 0 <= j < ts.len() ==> ((#[trigger] ts[j]).priority as int) < qs.len(),
    ensures
        enqueue_all(qs, ts).len() == qs.len(),
        enqueue_all(qs, ts)[k] == (qs[k].0 + for_queue(ts, k), qs[k].1),
    decreases ts.len(),
{
    if ts.len() == 0 {
        assert(qs[k].0 + for_queue(ts, k) =~= qs[k].0);
    } else {
        let d = ts.drop_last();
        assert forall|j: int| 0 <= j < d.len() implies ((#[trigger] d[j]).priority as int) < qs.len() by {
            assert(d[j] == ts[j]);
        }
        lemma_enqueue_all_at(qs, d, k);
        assert(ts.last() == ts[ts.len() - 1]);
        if ts.last().priority == k {
            assert(qs[k].0 + for_queue(d, k).push(ts.last()) =~= (qs[k].0 + for_queue(d, k)).push(ts.last()));
        }
    }
}

/// The task that queue `k` finishes during the tick run from `s`, if any.
pub open spec fn finished_in_queue(s: SimState, k: int) -> Option<Task> {
    let qs = enqueue_all(s.queues, arrived(s.pending, s.time));
    finished_task(qs[k].0, qs[k].1, s.time)
}

/// The tasks admitted to queue `k` at each of the first `n` ticks from `s0`.
pub open spec fn admissions(s0: SimState, k: int, n: nat) -> Seq<Seq<Task>> {
    Seq::new(n, |m: int| for_queue(arrived(simulate(s0, m as nat).pending, simulate(s0, m as nat).time), k))
}

/// The tasks queue `k` has finished in the first `n` ticks from `s0`, in the
/// order they finished.
pub open spec fn finished_from_queue(s0: SimState, k: int, n: nat) -> Seq<Task>
    decreases n,
{
    if n == 0 {
        Seq::empty()
    } else {
        let prev = finished_from_queue(s0, k, (n - 1) as nat);
        match finished_in_queue(simulate(s0, (n - 1) as nat), k) {
            Some(x) => prev.push(x),
            None => prev,
        }
    }
}

/// In a run from a valid start, an arrival-order queue behaves as
/// `arrival_order_run` fed with the tasks admitted to it at each tick: after
/// every tick its contents and the tasks it has finished are those of that
/// model. So, by `law_arrival_order_finishes_in_queue_order`, the queue
/// finishes its tasks in the order they were admitted to it.
pub proof fn law_run_follows_arrival_order_model(
    queues: Seq<(Seq<Task>, Algorithm)>,
    tasks: Seq<Task>,
    k: int,
    n: nat,
)
    requires
        valid_start(queues, tasks),
        0 <= k < queues.len(),
        queues[k].1 == Algorithm::ArrivalOrder,
        forall|m: nat| m < n ==> #[trigger] simulate(initial_state(queues, tasks), m).results.len() < tasks.len(),
    ensures
        arrival_order_run(Seq::empty(), admissions(initial_state(queues, tasks), k, n), 0) == (
            simulate(initial_state(queues, tasks), n).queues[k].0,
            finished_from_queue(initial_state(queues, tasks), k, n),
        ),
        simulate(initial_state(queues, tasks), n).queues[k].1 == Algorithm::ArrivalOrder,
        forall|j: int|
            0 <= j < finished_from_queue(initial_state(queues, tasks), k, n).len() ==> simulate(
                initial_state(queues, tasks),
                n,
            ).results.contains(
                result_of(
                    #[trigger] finished_from_queue(initial_state(queues, tasks), k, n)[j],
                    finished_from_queue(initial_state(queues, tasks), k, n)[j].finish_time - 1,
                ),
            ),
        forall|i: int, j: int|
            0 <= i < j < finished_from_queue(initial_state(queues, tasks), k, n).len() ==> (
            #[trigger] finished_from_queue(initial_state(queues, tasks), k, n)[i]).finish_time
                <= (#[trigger] finished_from_queue(initial_state(queues, tasks), k, n)[j]).finish_time,
        forall|j: int|
            0 <= j < finished_from_queue(initial_state(queues, tasks), k, n).len() ==> (
            #[trigger] finished_from_queue(initial_state(queues, tasks), k, n)[j]).finish_time <= n,
    decreases n,
{
    let s0 = initial_state(queues, tasks);
    let nq = queues.len() as int;
    if n == 0 {
        assert(queues[k].0 =~= Seq::<Task>::empty());
        lemma_initial(queues, tasks);
    } else {
        let m = (n - 1) as nat;
        law_run_follows_arrival_order_model(queues, tasks, k, m);
        lemma_inv_prefix(queues, tasks, n, m);
        let s = simulate(s0, m);
        lemma_step(s, tasks, nq);
        let a = arrived(s.pending, s.time);
        lemma_enqueue_all_at(s.queues, a, k);
        let ad = admissions(s0, k, n);
        assert(ad.drop_last() =~= admissions(s0, k, m));
        assert(ad.last() == for_queue(a, k));
        assert(s.time == m) by {
            lemma_time(s0, m);
        }
        let q1 = enqueue_all(s.queues, a);
        let f = finished_from_queue(s0, k, n);
        let fp = finished_from_queue(s0, k, m);
        let rs = simulate(s0, n).results;
        let tr = tick_results(q1, s.time);
        assert(rs == s.results + tr);
        lemma_tick_results_contains(q1, k, s.time);
        assert forall|j: int| 0 <= j < f.len() implies rs.contains(
            result_of(#[trigger] f[j], f[j].finish_time - 1),
        ) by {
            if j < fp.len() {
                assert(f[j] == fp[j]);
                let r = result_of(fp[j], fp[j].finish_time - 1);
                let i = choose|i: int| 0 <= i < s.results.len() && s.results[i] == r;
                assert(rs[i] == r);
            } else {
                let x = finished_in_queue(s, k)->Some_0;
                assert(f[j] == x);
                assert(x.finish_time == s.time + 1);
                let i = choose|i: int| 0 <= i < tr.len() && tr[i] == result_of(x, s.time);
                assert(rs[s.results.len() + i] == tr[i]);
            }
        }
        assert forall|j: int| 0 <= j < f.len() implies (#[trigger] f[j]).finish_time <= n by {
            if j < fp.len() {
                assert(f[j] == fp[j]);
            }
        }
        assert forall|i: int, j: int| 0 <= i < j < f.len() implies (#[trigger] f[i]).finish_time
            <= (#[trigger] f[j]).finish_time by {
            assert(f[i] == fp[i]);
            if j < fp.len() {
                assert(f[j] == fp[j]);
            } else {
                assert(fp[i].finish_time <= m);
            }
        }
    }
}

proof fn lemma_tick_results_contains(qs: Seq<(Seq<Task>, Algorithm)>, k: int, time: int)
    requires
        0 <= k < qs.len(),
    ensures
        finished_task(qs[k].0, qs[k].1, time) is Some ==> tick_results(qs, time).contains(
            result_of(finished_task(qs[k].0, qs[k].1, time)->Some_0, time),
        ),
    decreases qs.len(),
{
    let d = qs.drop_last();
    let tr = tick_results(qs, time);
    let trd = tick_results(d, time);
    if k < qs.len() - 1 {
        assert(d[k] == qs[k]);
        lemma_tick_results_contains(d, k, time);
        if finished_task(qs[k].0, qs[k].1, time) is Some {
            let r = result_of(finished_task(qs[k].0, qs[k].1, time)->Some_0, time);
            let i = choose|i: int| 0 <= i < trd.len() && trd[i] == r;
            match finished_task(qs.last().0, qs.last().1, time) {
                Some(y) => {
                    assert(tr == trd.push(result_of(y, time)));
                    assert(tr[i] == r);
                },
                None => {},
            }
        }
    } else {
        assert(qs.last() == qs[k]);
        if finished_task(qs[k].0, qs[k].1, time) is Some {
            assert(tr[tr.len() - 1] == result_of(finished_task(qs[k].0, qs[k].1, time)->Some_0, time));
        }
    }
}

proof fn lemma_time(s0: SimState, n: nat)
    ensures
        simulate(s0, n).time == s0.time + n,
    decreases n,
{
    if n > 0 {
        lemma_time(s0, (n - 1) as nat);
    }
}

proof fn lemma_inv_prefix(
    queues: Seq<(Seq<Task>, Algorithm)>,
    tasks: Seq<Task>,
    n: nat,
    m: nat,
)
    requires
        valid_start(queues, tasks),
        forall|i: nat| i < n ==> #[trigger] simulate(initial_state(queues, tasks), i).results.len() < tasks.len(),
        m < n,
    ensures
        sim_inv(simulate(initial_state(queues, tasks), m), tasks, queues.len() as int),
    decreases m,
{
    if m == 0 {
        lemma_initial(queues, tasks);
    } else {
        let k = (m - 1) as nat;
        lemma_inv_prefix(queues, tasks, n, k);
        lemma_step(simulate(initial_state(queues, tasks), k), tasks, queues.len() as int);
    }
}

/// Arrival order over a whole run: in a run from a valid start that has
/// reached tick `n`, an arrival-order queue `k` has finished, by name and
/// arrival tick, a prefix of the tasks admitted to it in admission order;
/// their finish times never decrease along that order; and each of them
/// stands in the run's results. So of two tasks admitted to the queue, the
/// one admitted first finishes no later than the other.
pub proof fn law_arrival_order_run_finishing_order(
    queues: Seq<(Seq<Task>, Algorithm)>,
    tasks: Seq<Task>,
    k: int,
    n: nat,
)
    requires
        valid_start(queues, tasks),
        0 <= k < queues.len(),
        queues[k].1 == Algorithm::ArrivalOrder,
        forall|m: nat| m < n ==> #[trigger] simulate(initial_state(queues, tasks), m).results.len() < tasks.len(),
    ensures
        key_seq(finished_from_queue(initial_state(queues, tasks), k, n)) == key_seq(
            joined(Seq::empty(), admissions(initial_state(queues, tasks), k, n)),
        ).subrange(0, finished_from_queue(initial_state(queues, tasks), k, n).len() as int),
        forall|i: int, j: int|
            0 <= i < j < finished_from_queue(initial_state(queues, tasks), k, n).len() ==> (
            #[trigger] finished_from_queue(initial_state(queues, tasks), k, n)[i]).finish_time
                <= (#[trigger] finished_from_queue(initial_state(queues, tasks), k, n)[j]).finish_time,
        forall|j: int|
            0 <= j < finished_from_queue(initial_state(queues, tasks), k, n).len() ==> simulate(
                initial_state(queues, tasks),
                n,
            ).results.contains(
                result_of(
                    #[trigger] finished_from_queue(initial_state(queues, tasks), k, n)[j],
                    finished_from_queue(initial_state(queues, tasks), k, n)[j].finish_time - 1,
                ),
            ),
{
    law_run_follows_arrival_order_model(queues, tasks, k, n);
    law_arrival_order_finishes_in_queue_order(
        Seq::empty(),
        admissions(initial_state(queues, tasks), k, n),
        0,
    );
}

} // verus!
