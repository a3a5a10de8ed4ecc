//! The simulation as a sequence of states, one per tick, and the facts that
//! hold of every state a valid configuration reaches.
use vstd::prelude::*;
use vstd::multiset::Multiset;
use crate::task::{Task, TaskResult, result_of};
use crate::policy::{
    Algorithm,
    algorithm_wf,
    queue_wf,
    task_fits,
    queue_after,
    finished_task,
    selected_index,
    run_one_tick,
    quantum_expired,
    preempted,
    completed,
    lemma_selected_index_bounds,
};
use crate::simulator::{
    arrived,
    not_arrived,
    enqueue,
    enqueue_all,
    tick_queues,
    tick_results,
    queues_ready,
    queue_ready,
    priorities_valid,
};

verus! {

/// The whole simulation between two ticks: the tasks still pending, the
/// queues, the results so far and the next tick to run.
pub struct SimState {
    pub pending: Seq<Task>,
    pub queues: Seq<(Seq<Task>, Algorithm)>,
    pub results: Seq<TaskResult>,
    pub time: int,
}

/// One tick: admission, one dispatch per queue in queue order, then the
/// clock advances.
pub open spec fn step(s: SimState) -> SimState {
    let qs = enqueue_all(s.queues, arrived(s.pending, s.time));
    SimState {
        pending: not_arrived(s.pending, s.time),
        queues: tick_queues(qs),
        results: s.results + tick_results(qs, s.time),
        time: s.time + 1,
    }
}

/// The state after `n` ticks from `s`.
pub open spec fn simulate(s: SimState, n: nat) -> SimState
    decreases n,
{
    if n == 0 {
        s
    } else {
        step(simulate(s, (n - 1) as nat))
    }
}

/// The state before the first tick.
pub open spec fn initial_state(queues: Seq<(Seq<Task>, Algorithm)>, tasks: Seq<Task>) -> SimState {
    SimState { pending: tasks, queues, results: Seq::empty(), time: 0 }
}

/// Tick `n` is the first at whose start all `total` tasks have finished.
pub open spec fn completes_at(s: SimState, total: int, n: nat) -> bool {
    &&& simulate(s, n).results.len() >= total
    &&& forall|m: nat| m < n ==> #[trigger] simulate(s, m).results.len() < total
}

/// What identifies a task across the run: its name and arrival tick.
pub open spec fn task_key(t: Task) -> (Seq<char>, int) {
    (t.name@, t.arrival_time as int)
}

/// The name and arrival tick that a result stands for.
pub open spec fn result_key(r: TaskResult) -> (Seq<char>, int) {
    (r.name@, r.finish_time - r.turnaround_time)
}

pub open spec fn keys(s: Seq<Task>) -> Multiset<(Seq<char>, int)>
    decreases s.len(),
{
    if s.len() == 0 {
        Multiset::empty()
    } else {
        keys(s.drop_last()).insert(task_key(s.last()))
    }
}

pub open spec fn result_keys(s: Seq<TaskResult>) -> Multiset<(Seq<char>, int)>
    decreases s.len(),
{
    if s.len() == 0 {
        Multiset::empty()
    } else {
        result_keys(s.drop_last()).insert(result_key(s.last()))
    }
}

/// Total processing time still owed to the tasks of `s`.
pub open spec fn work(s: Seq<Task>) -> int
    decreases s.len(),
{
    if s.len() == 0 {
        0
    } else {
        work(s.drop_last()) + s.last().processing_time
    }
}

pub open spec fn queued_keys(qs: Seq<(Seq<Task>, Algorithm)>) -> Multiset<(Seq<char>, int)>
    decreases qs.len(),
{
    if qs.len() == 0 {
        Multiset::empty()
    } else {
        queued_keys(qs.drop_last()).add(keys(qs.last().0))
    }
}

pub open spec fn queued_work(qs: Seq<(Seq<Task>, Algorithm)>) -> int
    decreases qs.len(),
{
    if qs.len() == 0 {
        0
    } else {
        queued_work(qs.drop_last()) + work(qs.last().0)
    }
}

pub open spec fn nonempty_count(qs: Seq<(Seq<Task>, Algorithm)>) -> int
    decreases qs.len(),
{
    if qs.len() == 0 {
        0
    } else {
        nonempty_count(qs.drop_last()) + if qs.last().0.len() > 0 {
            1int
        } else {
            0int
        }
    }
}

/// A configuration the simulator can run once priorities are checked: every
/// queue is empty with a usable policy, every task owes work, and no finish
/// time can exceed `u32::MAX`.
pub open spec fn runnable(queues: Seq<(Seq<Task>, Algorithm)>, tasks: Seq<Task>) -> bool {
    &&& forall|i: int|
        0 <= i < queues.len() ==> (#[trigger] queues[i]).0.len() == 0 && algorithm_wf(
            queues[i].1,
        )
    &&& forall|i: int|
        0 <= i < tasks.len() ==> {
            &&& (#[trigger] tasks[i]).processing_time >= 1
            &&& tasks[i].arrival_time + work(tasks) < u32::MAX
        }
}

/// A configuration the simulator accepts.
pub open spec fn valid_start(queues: Seq<(Seq<Task>, Algorithm)>, tasks: Seq<Task>) -> bool {
    runnable(queues, tasks) && priorities_valid(tasks, queues.len() as int)
}

/// What holds of every state reached from a valid start with tasks `tasks`.
pub open spec fn sim_inv(s: SimState, tasks: Seq<Task>, nq: int) -> bool {
    let w0 = work(tasks);
    &&& s.queues.len() == nq
    &&& s.time >= 0
    &&& queues_ready(s.queues, s.time)
    &&& forall|j: int|
        0 <= j < s.pending.len() ==> {
            &&& (#[trigger] s.pending[j]).priority < nq
            &&& s.pending[j].processing_time >= 1
            &&& s.pending[j].arrival_time >= s.time
            &&& s.pending[j].arrival_time + w0 < u32::MAX
        }
    &&& keys(s.pending).add(queued_keys(s.queues)).add(result_keys(s.results)) =~= keys(tasks)
    &&& forall|j: int|
        0 <= j < s.results.len() ==> 1 <= (#[trigger] s.results[j]).turnaround_time
            <= s.results[j].finish_time
    &&& work(s.pending) + queued_work(s.queues) <= w0
    &&& s.time + work(s.pending) + queued_work(s.queues) <= u32::MAX - 1
}


proof fn lemma_concat(a: Seq<Task>, b: Seq<Task>)
    ensures
        keys(a + b) =~= keys(a).add(keys(b)),
        work(a + b) == work(a) + work(b),
    decreases b.len(),
{
    if b.len() > 0 {
        assert((a + b).drop_last() =~= a + b.drop_last());
        lemma_concat(a, b.drop_last());
    } else {
        assert(a + b =~= a);
    }
}

proof fn lemma_result_concat(a: Seq<TaskResult>, b: Seq<TaskResult>)
    ensures
        result_keys(a + b) =~= result_keys(a).add(result_keys(b)),
    decreases b.len(),
{
    if b.len() > 0 {
        assert((a + b).drop_last() =~= a + b.drop_last());
        lemma_result_concat(a, b.drop_last());
    } else {
        assert(a + b =~= a);
    }
}

pub proof fn lemma_keys_len(s: Seq<Task>)
    ensures
        keys(s).len() == s.len(),
    decreases s.len(),
{
    if s.len() > 0 {
        lemma_keys_len(s.drop_last());
    }
}

pub proof fn lemma_result_keys_len(s: Seq<TaskResult>)
    ensures
        result_keys(s).len() == s.len(),
    decreases s.len(),
{
    if s.len() > 0 {
        lemma_result_keys_len(s.drop_last());
    }
}

proof fn lemma_work_nonneg(s: Seq<Task>)
    ensures
        work(s) >= 0,
    decreases s.len(),
{
    if s.len() > 0 {
        lemma_work_nonneg(s.drop_last());
    }
}

/// Admission splits the pool without losing or adding a task.
proof fn lemma_split(p: Seq<Task>, time: int, nq: int, bound: int, lo: int)
    requires
        forall|j: int|
            0 <= j < p.len() ==> {
                &&& (#[trigger] p[j]).arrival_time >= lo
                &&& p[j].priority < nq
                &&& p[j].processing_time >= 1
                &&& p[j].arrival_time + bound < u32::MAX
            },
    ensures
        keys(arrived(p, time)).add(keys(not_arrived(p, time))) =~= keys(p),
        work(arrived(p, time)) + work(not_arrived(p, time)) == work(p),
        forall|j: int|
            0 <= j < arrived(p, time).len() ==> {
                &&& (#[trigger] arrived(p, time)[j]).priority < nq
                &&& arrived(p, time)[j].processing_time >= 1
                &&& arrived(p, time)[j].arrival_time <= time
                &&& arrived(p, time)[j].arrival_time >= lo
                &&& arrived(p, time)[j].state == crate::task::State::Executable
                &&& arrived(p, time)[j].run_ticks == 0
            },
        forall|j: int|
            0 <= j < not_arrived(p, time).len() ==> {
                &&& (#[trigger] not_arrived(p, time)[j]).priority < nq
                &&& not_arrived(p, time)[j].processing_time >= 1
                &&& not_arrived(p, time)[j].arrival_time > time
                &&& not_arrived(p, time)[j].arrival_time + bound < u32::MAX
            },
    decreases p.len(),
{
    if p.len() > 0 {
        let q = p.drop_last();
        assert forall|j: int|
            0 <= j < q.len() implies {
                &&& (#[trigger] q[j]).arrival_time >= lo
                &&& q[j].priority < nq
                &&& q[j].processing_time >= 1
                &&& q[j].arrival_time + bound < u32::MAX
            } by {
            assert(q[j] == p[j]);
        }
        lemma_split(q, time, nq, bound, lo);
        assert(p[p.len() - 1] == p.last());
        let a = arrived(q, time);
        let n = not_arrived(q, time);
        if p.last().arrival_time <= time {
            assert(arrived(p, time).drop_last() =~= a);
            assert forall|j: int| 0 <= j < arrived(p, time).len() - 1 implies arrived(p, time)[j]
                == a[j] by {}
        } else {
            assert(not_arrived(p, time).drop_last() =~= n);
            assert forall|j: int|
                0 <= j < not_arrived(p, time).len() - 1 implies not_arrived(p, time)[j]
                == n[j] by {}
        }
    }
}

/// Replacing one queue changes the queued tasks by exactly that queue.
proof fn lemma_queued_update(qs: Seq<(Seq<Task>, Algorithm)>, i: int, q: Seq<Task>)
    requires
        0 <= i < qs.len(),
    ensures
        queued_keys(qs.update(i, (q, qs[i].1))).add(keys(qs[i].0)) =~= queued_keys(qs).add(
            keys(q),
        ),
        queued_work(qs.update(i, (q, qs[i].1))) + work(qs[i].0) == queued_work(qs) + work(q),
    decreases qs.len(),
{
    let u = qs.update(i, (q, qs[i].1));
    let d = qs.drop_last();
    assert(queued_keys(u) == queued_keys(u.drop_last()).add(keys(u.last().0)));
    assert(queued_keys(qs) == queued_keys(d).add(keys(qs.last().0)));
    if i == qs.len() - 1 {
        assert(u.drop_last() =~= d);
        assert(u.last().0 == q);
        assert(qs.last() == qs[i]);
    } else {
        assert(u.drop_last() =~= d.update(i, (q, d[i].1)));
        assert(d[i] == qs[i]);
        assert(u.last() == qs.last());
        lemma_queued_update(d, i, q);
    }
    let lhs = queued_keys(u).add(keys(qs[i].0));
    let rhs = queued_keys(qs).add(keys(q));
    assert forall|v| lhs.count(v) == rhs.count(v) by {
        if i < qs.len() - 1 {
            assert(queued_keys(d.update(i, (q, d[i].1))).add(keys(d[i].0)).count(v) == queued_keys(d).add(keys(q)).count(v));
        }
    }
    assert(lhs =~= rhs);
}

proof fn lemma_queue_wf_push(q: Seq<Task>, alg: Algorithm, t: Task)
    requires
        queue_wf(q, alg),
        algorithm_wf(alg),
        t.processing_time >= 1,
        t.state == crate::task::State::Executable,
        t.run_ticks == 0,
    ensures
        queue_wf(q.push(t), alg),
{
    assert forall|j: int| 0 <= j < q.len() + 1 implies task_fits(#[trigger] q.push(t)[j], alg) by {
        if j < q.len() {
            assert(q.push(t)[j] == q[j]);
        }
    }
}

/// Enqueueing the admitted tasks moves them into the queues.
proof fn lemma_enqueue_all(qs: Seq<(Seq<Task>, Algorithm)>, ts: Seq<Task>, time: int)
    requires
        queues_ready(qs, time),
        forall|j: int|
            0 <= j < ts.len() ==> {
                &&& (#[trigger] ts[j]).priority < qs.len()
                &&& ts[j].processing_time >= 1
                &&& ts[j].arrival_time <= time
                &&& ts[j].state == crate::task::State::Executable
                &&& ts[j].run_ticks == 0
            },
    ensures
        enqueue_all(qs, ts).len() == qs.len(),
        queues_ready(enqueue_all(qs, ts), time),
        queued_keys(enqueue_all(qs, ts)) =~= queued_keys(qs).add(keys(ts)),
        queued_work(enqueue_all(qs, ts)) == queued_work(qs) + work(ts),
    decreases ts.len(),
{
    if ts.len() > 0 {
        let us = ts.drop_last();
        assert forall|j: int|
            0 <= j < us.len() implies {
                &&& (#[trigger] us[j]).priority < qs.len()
                &&& us[j].processing_time >= 1
                &&& us[j].arrival_time <= time
                &&& us[j].state == crate::task::State::Executable
                &&& us[j].run_ticks == 0
            } by {
            assert(us[j] == ts[j]);
        }
        lemma_enqueue_all(qs, us, time);
        let rs = enqueue_all(qs, us);
        let t = ts.last();
        assert(t == ts[ts.len() - 1]);
        let p = t.priority as int;
        let nq = rs[p].0.push(t);
        assert(nq.drop_last() =~= rs[p].0);
        lemma_queued_update(rs, p, nq);
        let r = enqueue(rs, t);
        assert(ts.drop_last() == us);
        assert(enqueue_all(qs, ts) == r);
        let lhs = queued_keys(r);
        let rhs = queued_keys(qs).add(keys(ts));
        assert forall|v| lhs.count(v) == rhs.count(v) by {
            assert(queued_keys(r).add(keys(rs[p].0)).count(v) == queued_keys(rs).add(keys(nq)).count(v));
            assert(queued_keys(rs).count(v) == queued_keys(qs).add(keys(us)).count(v));
        }
        assert(lhs =~= rhs);
        assert forall|i: int| 0 <= i < r.len() implies queue_ready(#[trigger] r[i], time) by {
            assert(queue_ready(rs[i], time));
            if i == p {
                lemma_queue_wf_push(rs[p].0, rs[p].1, t);
                assert(r[i].0 == rs[p].0.push(t));
                assert forall|j: int| 0 <= j < r[i].0.len() implies #[trigger] r[i].0[j].arrival_time <= time by {
                    if j < rs[p].0.len() {
                        assert(r[i].0[j] == rs[p].0[j]);
                    } else {
                        assert(r[i].0[j] == t);
                    }
                }
            } else {
                assert(r[i] == rs[i]);
            }
        }
        assert(queues_ready(r, time));
    }
}

proof fn lemma_singleton(x: Task)
    ensures
        keys(seq![x]) =~= Multiset::empty().insert(task_key(x)),
        work(seq![x]) == x.processing_time,
{
    let e = Seq::<Task>::empty();
    assert(seq![x].drop_last() =~= e);
    assert(seq![x].last() == x);
    assert(keys(e) == Multiset::<(Seq<char>, int)>::empty());
    assert(work(e) == 0);
    assert(keys(seq![x]) == keys(e).insert(task_key(x)));
    assert(work(seq![x]) == work(e) + x.processing_time);
}

/// One tick of a non-empty queue: exactly one unit of work is done, and the
/// tasks it holds are those it held less the one that finished, if any.
proof fn lemma_queue_tick(q: Seq<Task>, alg: Algorithm, time: int)
    requires
        q.len() > 0,
        queue_ready((q, alg), time),
        0 <= time < u32::MAX,
    ensures
        work(queue_after(q, alg)) == work(q) - 1,
        queue_ready((queue_after(q, alg), alg), time + 1),
        match finished_task(q, alg, time) {
            Some(t) => {
                &&& keys(queue_after(q, alg)).insert(result_key(result_of(t, time))) =~= keys(q)
                &&& 1 <= result_of(t, time).turnaround_time <= result_of(t, time).finish_time
            },
            None => keys(queue_after(q, alg)) =~= keys(q),
        },
{
    let n = q.len() as int;
    lemma_selected_index_bounds(q, alg);
    let i = selected_index(q, alg);
    let x = q[i];
    let t = run_one_tick(x, alg);
    assert(task_fits(q[i], alg));
    assert(x.arrival_time <= time);
    let a = q.subrange(0, i);
    let b = q.subrange(i + 1, n);
    assert(q =~= a + seq![x] + b);
    lemma_concat(a, seq![x]);
    lemma_concat(a + seq![x], b);
    lemma_concat(a, b);
    lemma_singleton(x);
    let after = queue_after(q, alg);
    if t.processing_time == 0 {
        assert(after =~= a + b);
        let r = result_of(completed(t, time), time);
        assert(result_key(r) == task_key(x));
        let lhs = keys(after).insert(result_key(r));
        assert forall|v| lhs.count(v) == keys(q).count(v) by {}
        assert(lhs =~= keys(q));
        assert forall|j: int| 0 <= j < after.len() implies task_fits(#[trigger] after[j], alg)
            && after[j].arrival_time <= time + 1 by {
            if j < i {
                assert(after[j] == q[j]);
            } else {
                assert(after[j] == q[j + 1]);
            }
            assert(task_fits(q[j], alg));
            assert(task_fits(q[j + 1], alg));
        }
    } else if quantum_expired(t, alg) {
        let y = preempted(t);
        assert(after =~= (a + b).push(y));
        assert((a + b).push(y).drop_last() =~= a + b);
        let lhs = keys(after);
        assert forall|v| lhs.count(v) == keys(q).count(v) by {}
        assert(lhs =~= keys(q));
        assert forall|j: int| 0 <= j < after.len() implies task_fits(#[trigger] after[j], alg)
            && after[j].arrival_time <= time + 1 by {
            if j < i {
                assert(after[j] == q[j]);
                assert(task_fits(q[j], alg));
            } else if j < n - 1 {
                assert(after[j] == q[j + 1]);
                assert(task_fits(q[j + 1], alg));
            } else {
                assert(after[j] == y);
            }
        }
    } else {
        assert(after =~= a + seq![t] + b);
        lemma_concat(a, seq![t]);
        lemma_concat(a + seq![t], b);
        lemma_singleton(t);
        let lhs = keys(after);
        assert forall|v| lhs.count(v) == keys(q).count(v) by {}
        assert(lhs =~= keys(q));
        assert forall|j: int| 0 <= j < after.len() implies task_fits(#[trigger] after[j], alg)
            && after[j].arrival_time <= time + 1 by {
            if j < i {
                assert(after[j] == q[j]);
                assert(task_fits(q[j], alg));
            } else if j == i {
                assert(after[j] == t);
            } else {
                assert(after[j] == q[j]);
                assert(task_fits(q[j], alg));
            }
        }
    }
}

/// One tick over all queues: each non-empty queue does one unit of work, and
/// every task leaves its queue only as a result.
proof fn lemma_tick_all(qs: Seq<(Seq<Task>, Algorithm)>, time: int)
    requires
        queues_ready(qs, time),
        0 <= time < u32::MAX,
    ensures
        queued_keys(tick_queues(qs)).add(result_keys(tick_results(qs, time))) =~= queued_keys(qs),
        queued_work(tick_queues(qs)) == queued_work(qs) - nonempty_count(qs),
        queues_ready(tick_queues(qs), time + 1),
        forall|j: int|
            0 <= j < tick_results(qs, time).len() ==> 1 <= (#[trigger] tick_results(
                qs,
                time,
            )[j]).turnaround_time <= tick_results(qs, time)[j].finish_time,
        nonempty_count(qs) >= 0,
        nonempty_count(qs) == 0 ==> queued_keys(qs).len() == 0 && tick_results(qs, time).len()
            == 0 && queued_work(qs) == 0,
    decreases qs.len(),
{
    if qs.len() > 0 {
        let d = qs.drop_last();
        let l = qs.last();
        assert(l == qs[qs.len() - 1]);
        assert(queue_ready(l, time));
        assert forall|i: int| 0 <= i < d.len() implies queue_ready(#[trigger] d[i], time) by {
            assert(d[i] == qs[i]);
        }
        lemma_tick_all(d, time);
        let tq = tick_queues(qs);
        assert(tq.drop_last() =~= tick_queues(d));
        assert(tq.last() == (queue_after(l.0, l.1), l.1));
        let tr = tick_results(qs, time);
        let trd = tick_results(d, time);
        let after = queue_after(l.0, l.1);
        if l.0.len() > 0 {
            lemma_queue_tick(l.0, l.1, time);
        } else {
            assert(after == l.0);
            assert(l.0 =~= Seq::<Task>::empty());
            assert(keys(l.0) == Multiset::<(Seq<char>, int)>::empty());
            assert(work(l.0) == 0);
        }
        match finished_task(l.0, l.1, time) {
            Some(t) => {
                assert(tr == trd.push(result_of(t, time)));
                assert(tr.drop_last() =~= trd);
                assert(result_keys(tr) == result_keys(trd).insert(result_key(result_of(t, time))));
                assert forall|j: int| 0 <= j < tr.len() implies 1 <= (#[trigger] tr[j]).turnaround_time
                    <= tr[j].finish_time by {
                    if j < trd.len() {
                        assert(tr[j] == trd[j]);
                    }
                }
            },
            None => {
                assert(tr == trd);
            },
        }
        let lhs = queued_keys(tq).add(result_keys(tr));
        let rhs = queued_keys(qs);
        assert forall|v| lhs.count(v) == rhs.count(v) by {
            assert(queued_keys(tick_queues(d)).add(result_keys(trd)).count(v) == queued_keys(d).count(v));
        }
        assert(lhs =~= rhs);
        assert forall|i: int| 0 <= i < tq.len() implies queue_ready(#[trigger] tq[i], time + 1) by {
            if i < d.len() {
                assert(tq[i] == tick_queues(d)[i]);
            }
        }
        if nonempty_count(qs) == 0 {
            assert(l.0.len() == 0);
        }
    }
}

proof fn lemma_queued_work_nonneg(qs: Seq<(Seq<Task>, Algorithm)>)
    ensures
        queued_work(qs) >= 0,
    decreases qs.len(),
{
    if qs.len() > 0 {
        lemma_queued_work_nonneg(qs.drop_last());
        lemma_work_nonneg(qs.last().0);
    }
}

/// Every tick of an unfinished run keeps the invariant, and what the tick
/// needs of its inputs holds.
pub proof fn lemma_step(s: SimState, tasks: Seq<Task>, nq: int)
    requires
        sim_inv(s, tasks, nq),
        s.results.len() < tasks.len(),
    ensures
        sim_inv(step(s), tasks, nq),
        s.time < u32::MAX - 1,
        queues_ready(enqueue_all(s.queues, arrived(s.pending, s.time)), s.time),
        forall|j: int|
            0 <= j < arrived(s.pending, s.time).len() ==> (#[trigger] arrived(
                s.pending,
                s.time,
            )[j]).priority < nq && arrived(s.pending, s.time)[j].arrival_time == s.time,
{
    let w0 = work(tasks);
    let p = s.pending;
    let t = s.time;
    let a = arrived(p, t);
    let n = not_arrived(p, t);
    lemma_work_nonneg(p);
    lemma_queued_work_nonneg(s.queues);
    lemma_split(p, t, nq, w0, t);
    lemma_enqueue_all(s.queues, a, t);
    let q1 = enqueue_all(s.queues, a);
    lemma_tick_all(q1, t);
    let tq = tick_queues(q1);
    let tr = tick_results(q1, t);
    let r2 = s.results + tr;
    lemma_result_concat(s.results, tr);
    lemma_work_nonneg(n);
    lemma_work_nonneg(a);
    lemma_queued_work_nonneg(tq);
    let mid = keys(n).add(queued_keys(q1)).add(result_keys(s.results));
    assert forall|v| mid.count(v) == keys(tasks).count(v) by {
        assert(keys(p).add(queued_keys(s.queues)).add(result_keys(s.results)).count(v) == keys(tasks).count(v));
    }
    let lhs = keys(n).add(queued_keys(tq)).add(result_keys(r2));
    assert forall|v| lhs.count(v) == keys(tasks).count(v) by {
        assert(mid.count(v) == keys(tasks).count(v));
    }
    assert(lhs =~= keys(tasks));
    assert forall|j: int| 0 <= j < r2.len() implies 1 <= (#[trigger] r2[j]).turnaround_time
        <= r2[j].finish_time by {
        if j < s.results.len() {
            assert(r2[j] == s.results[j]);
        } else {
            assert(r2[j] == tr[j - s.results.len()]);
        }
    }
    if nonempty_count(q1) == 0 {
        lemma_keys_len(n);
        lemma_keys_len(tasks);
        lemma_result_keys_len(s.results);
        assert(mid.len() == keys(tasks).len());
        assert(n.len() > 0);
        assert(n[0].arrival_time > t);
    }
}

/// A valid start satisfies the invariant.
pub proof fn lemma_initial(queues: Seq<(Seq<Task>, Algorithm)>, tasks: Seq<Task>)
    requires
        valid_start(queues, tasks),
    ensures
        sim_inv(initial_state(queues, tasks), tasks, queues.len() as int),
{
    let s = initial_state(queues, tasks);
    lemma_work_nonneg(tasks);
    assert forall|i: int| 0 <= i < tasks.len() implies (#[trigger] tasks[i]).priority < queues.len() by {
        assert((tasks[i].priority as int) < queues.len());
    }
    assert forall|i: int| 0 <= i < queues.len() implies queue_ready(#[trigger] queues[i], 0) by {
        assert(queues[i].0.len() == 0);
    }
    lemma_empty_queues(queues);
    let lhs = keys(tasks).add(queued_keys(queues)).add(result_keys(s.results));
    assert forall|v| lhs.count(v) == keys(tasks).count(v) by {}
    assert(lhs =~= keys(tasks));
    if tasks.len() > 0 {
        assert(tasks[0].arrival_time + work(tasks) < u32::MAX);
    }
}

proof fn lemma_empty_queues(qs: Seq<(Seq<Task>, Algorithm)>)
    requires
        forall|i: int| 0 <= i < qs.len() ==> (#[trigger] qs[i]).0.len() == 0,
    ensures
        queued_keys(qs) =~= Multiset::empty(),
        queued_work(qs) == 0,
    decreases qs.len(),
{
    if qs.len() > 0 {
        let d = qs.drop_last();
        assert forall|i: int| 0 <= i < d.len() implies (#[trigger] d[i]).0.len() == 0 by {
            assert(d[i] == qs[i]);
        }
        lemma_empty_queues(d);
        assert(qs.last() == qs[qs.len() - 1]);
        assert(qs.last().0 =~= Seq::<Task>::empty());
        assert(keys(qs.last().0) == Multiset::<(Seq<char>, int)>::empty());
        assert(work(qs.last().0) == 0);
    }
}

/// One tick keeps every task of a queue fitting it.
pub proof fn lemma_queue_wf_after(q: Seq<Task>, alg: Algorithm)
    requires
        q.len() > 0,
        queue_wf(q, alg),
        algorithm_wf(alg),
    ensures
        queue_wf(queue_after(q, alg), alg),
{
    let n = q.len() as int;
    lemma_selected_index_bounds(q, alg);
    let i = selected_index(q, alg);
    let t = run_one_tick(q[i], alg);
    assert(task_fits(q[i], alg));
    let after = queue_after(q, alg);
    assert forall|j: int| 0 <= j < after.len() implies task_fits(#[trigger] after[j], alg) by {
        if t.processing_time == 0 || quantum_expired(t, alg) {
            if j < i {
                assert(after[j] == q[j]);
                assert(task_fits(q[j], alg));
            } else if j < n - 1 {
                assert(after[j] == q[j + 1]);
                assert(task_fits(q[j + 1], alg));
            } else {
                assert(after[j] == preempted(t));
            }
        } else {
            if j != i {
                assert(after[j] == q[j]);
                assert(task_fits(q[j], alg));
            }
        }
    }
}

} // verus!
