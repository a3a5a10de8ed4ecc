use std::collections::VecDeque;

use sched_sim::{
    add_result, add_task, create_queue_list, dispatch, dispatch_task, fetch_new_tasks,
    run_simulator, validation, Algorithm, ConfigError, State, Task, TaskResult,
};

fn names(results: &[TaskResult]) -> Vec<&'static str> {
    results.iter().map(|r| r.name()).collect()
}

#[test]
fn arrival_order_keeps_insertion_order() {
    let queues = create_queue_list(vec![Algorithm::ArrivalOrder]).unwrap();
    let tasks = vec![Task::new("A", 0, 2, 0), Task::new("B", 0, 1, 0)];
    let results = run_simulator(queues, tasks).unwrap();
    assert_eq!(
        results,
        vec![TaskResult::new("A", 2, 2), TaskResult::new("B", 3, 3)]
    );
}

#[test]
fn invalid_priority_is_rejected() {
    let queues =
        create_queue_list(vec![Algorithm::ArrivalOrder, Algorithm::ArrivalOrder]).unwrap();
    let tasks = vec![Task::new("A", 0, 2, 0), Task::new("X", 0, 1, 5)];
    assert_eq!(
        run_simulator(queues, tasks),
        Err(ConfigError::InvalidPriority)
    );
}

#[test]
fn zero_quantum_is_rejected() {
    let r = create_queue_list(vec![Algorithm::ArrivalOrder, Algorithm::RoundRobin(0, true)]);
    assert_eq!(r.err(), Some(ConfigError::ZeroQuantum));
}

#[test]
fn create_queue_list_makes_empty_queues_in_order() {
    let ql = create_queue_list(vec![
        Algorithm::ProcessingTimeOrder,
        Algorithm::RoundRobin(3, false),
    ])
    .unwrap();
    assert_eq!(ql.len(), 2);
    assert!(ql[0].0.is_empty() && ql[1].0.is_empty());
    assert_eq!(ql[0].1, Algorithm::ProcessingTimeOrder);
    assert_eq!(ql[1].1, Algorithm::RoundRobin(3, false));
}

#[test]
fn processing_time_order_runs_shortest_first() {
    let queues = create_queue_list(vec![Algorithm::ProcessingTimeOrder]).unwrap();
    let tasks = vec![
        Task::new("A", 0, 3, 0),
        Task::new("B", 0, 1, 0),
        Task::new("C", 1, 1, 0),
    ];
    let results = run_simulator(queues, tasks).unwrap();
    assert_eq!(
        results,
        vec![
            TaskResult::new("B", 1, 1),
            TaskResult::new("C", 2, 1),
            TaskResult::new("A", 5, 5),
        ]
    );
}

#[test]
fn processing_time_order_breaks_ties_by_arrival() {
    let queues = create_queue_list(vec![Algorithm::ProcessingTimeOrder]).unwrap();
    // At tick 1, A has 2 ticks left and B, arrived later, has 2 as well.
    let tasks = vec![Task::new("B", 1, 2, 0), Task::new("A", 0, 3, 0)];
    let results = run_simulator(queues, tasks).unwrap();
    assert_eq!(
        results,
        vec![TaskResult::new("A", 3, 3), TaskResult::new("B", 5, 4)]
    );
}

#[test]
fn round_robin_preempts_after_quantum() {
    let queues = create_queue_list(vec![Algorithm::RoundRobin(2, true)]).unwrap();
    let tasks = vec![Task::new("A", 0, 3, 0), Task::new("B", 0, 2, 0)];
    let results = run_simulator(queues, tasks).unwrap();
    assert_eq!(
        results,
        vec![TaskResult::new("B", 4, 4), TaskResult::new("A", 5, 5)]
    );
}

#[test]
fn round_robin_without_preemption_flag_orders_the_same() {
    let queues = create_queue_list(vec![Algorithm::RoundRobin(2, false)]).unwrap();
    let tasks = vec![Task::new("A", 0, 3, 0), Task::new("B", 0, 2, 0)];
    let results = run_simulator(queues, tasks).unwrap();
    assert_eq!(
        results,
        vec![TaskResult::new("B", 4, 4), TaskResult::new("A", 5, 5)]
    );
}

#[test]
fn round_robin_never_runs_a_task_past_its_quantum() {
    let mut q: VecDeque<Task> = VecDeque::new();
    let alg = Algorithm::RoundRobin(1, true);
    let mut a = Task::new("A", 0, 3, 0);
    a.state = State::Executable;
    let mut b = Task::new("B", 0, 3, 0);
    b.state = State::Executable;
    q.push_back(a);
    q.push_back(b);
    assert!(dispatch(&mut q, &alg, 0).is_none());
    assert_eq!(q[0].name, "B");
    assert_eq!(q[1].name, "A");
    assert_eq!(q[1].run_ticks, 0);
    assert_eq!(q[1].state, State::Executable);
    assert_eq!(q[1].processing_time, 2);
}

#[test]
fn queues_progress_independently() {
    let queues =
        create_queue_list(vec![Algorithm::ArrivalOrder, Algorithm::ArrivalOrder]).unwrap();
    let tasks = vec![Task::new("X", 0, 2, 0), Task::new("Y", 0, 1, 1)];
    let results = run_simulator(queues, tasks).unwrap();
    assert_eq!(
        results,
        vec![TaskResult::new("Y", 1, 1), TaskResult::new("X", 2, 2)]
    );
}

#[test]
fn single_tick_task_finishes_in_its_first_tick() {
    let queues = create_queue_list(vec![Algorithm::ArrivalOrder]).unwrap();
    let tasks = vec![Task::new("late", 3, 1, 0)];
    let results = run_simulator(queues, tasks).unwrap();
    assert_eq!(results, vec![TaskResult::new("late", 4, 1)]);
}

#[test]
fn empty_task_list_gives_no_results() {
    let queues = create_queue_list(vec![Algorithm::ArrivalOrder]).unwrap();
    assert_eq!(run_simulator(queues, Vec::new()), Ok(Vec::new()));
}

#[test]
fn every_task_appears_once_with_consistent_times() {
    let queues = create_queue_list(vec![
        Algorithm::ArrivalOrder,
        Algorithm::ProcessingTimeOrder,
        Algorithm::RoundRobin(2, true),
    ])
    .unwrap();
    let spec = [
        ("t1", 0, 3, 0),
        ("t2", 2, 1, 1),
        ("t3", 1, 4, 2),
        ("t4", 1, 2, 1),
        ("t5", 5, 2, 2),
        ("t6", 0, 1, 0),
    ];
    let tasks: Vec<Task> = spec.iter().map(|&(n, a, p, q)| Task::new(n, a, p, q)).collect();
    let results = run_simulator(queues, tasks).unwrap();
    assert_eq!(results.len(), spec.len());
    let mut got = names(&results);
    got.sort();
    assert_eq!(got, vec!["t1", "t2", "t3", "t4", "t5", "t6"]);
    for r in &results {
        let arrival = spec.iter().find(|s| s.0 == r.name()).unwrap().1;
        assert!(r.finish_time() > arrival);
        assert_eq!(r.turnaround_time(), r.finish_time() - arrival);
    }
}

#[test]
fn running_twice_gives_identical_results() {
    let make = || {
        (
            create_queue_list(vec![
                Algorithm::RoundRobin(1, false),
                Algorithm::ProcessingTimeOrder,
            ])
            .unwrap(),
            vec![
                Task::new("a", 0, 3, 0),
                Task::new("b", 0, 2, 0),
                Task::new("c", 1, 2, 1),
                Task::new("d", 1, 1, 1),
            ],
        )
    };
    let (q1, t1) = make();
    let (q2, t2) = make();
    assert_eq!(run_simulator(q1, t1), run_simulator(q2, t2));
}

#[test]
fn fetch_new_tasks_takes_arrived_tasks_in_order() {
    let mut pool = vec![
        Task::new("a", 2, 1, 0),
        Task::new("b", 0, 1, 0),
        Task::new("c", 1, 1, 0),
        Task::new("d", 3, 1, 0),
    ];
    let got = fetch_new_tasks(&mut pool, 1).unwrap();
    assert_eq!(got.iter().map(|t| t.name).collect::<Vec<_>>(), vec!["b", "c"]);
    assert!(got.iter().all(|t| t.state == State::Executable));
    assert_eq!(pool.iter().map(|t| t.name).collect::<Vec<_>>(), vec!["a", "d"]);
    assert!(pool.iter().all(|t| t.state == State::Waiting));
    assert!(fetch_new_tasks(&mut pool, 1).is_none());
    assert_eq!(pool.len(), 2);
}

#[test]
fn add_task_appends_to_the_priority_queue() {
    let mut ql =
        create_queue_list(vec![Algorithm::ArrivalOrder, Algorithm::ArrivalOrder]).unwrap();
    add_task(&mut ql, Task::new("a", 0, 1, 1));
    add_task(&mut ql, Task::new("b", 0, 1, 1));
    assert!(ql[0].0.is_empty());
    assert_eq!(ql[1].0.iter().map(|t| t.name).collect::<Vec<_>>(), vec!["a", "b"]);
}

#[test]
fn add_result_records_finish_and_turnaround() {
    let mut results = Vec::new();
    add_result(&mut results, 6, Task::new("a", 2, 1, 0));
    assert_eq!(results, vec![TaskResult::new("a", 7, 5)]);
}

#[test]
fn dispatch_runs_head_and_reports_finish() {
    let mut q: VecDeque<Task> = VecDeque::new();
    let mut a = Task::new("a", 0, 2, 0);
    a.state = State::Executable;
    q.push_back(a);
    assert!(dispatch(&mut q, &Algorithm::ArrivalOrder, 0).is_none());
    assert_eq!(q[0].processing_time, 1);
    assert_eq!(q[0].state, State::Executing);
    let done = dispatch(&mut q, &Algorithm::ArrivalOrder, 1).unwrap();
    assert_eq!(done.finish_time, 2);
    assert_eq!(done.processing_time, 0);
    assert!(q.is_empty());
    assert!(dispatch(&mut q, &Algorithm::ArrivalOrder, 2).is_none());
}

#[test]
fn dispatch_task_advances_every_queue_once() {
    let mut ql =
        create_queue_list(vec![Algorithm::ArrivalOrder, Algorithm::ProcessingTimeOrder])
            .unwrap();
    for t in fetch_new_tasks(
        &mut vec![
            Task::new("a", 0, 1, 0),
            Task::new("b", 0, 3, 1),
            Task::new("c", 0, 2, 1),
        ],
        0,
    )
    .unwrap()
    {
        add_task(&mut ql, t);
    }
    let mut results = Vec::new();
    dispatch_task(&mut ql, 0, &mut results);
    assert_eq!(results, vec![TaskResult::new("a", 1, 1)]);
    assert!(ql[0].0.is_empty());
    assert_eq!(ql[1].0[0].processing_time, 3);
    assert_eq!(ql[1].0[1].processing_time, 1);
}

#[test]
fn validation_checks_priorities() {
    let ql = create_queue_list(vec![Algorithm::ArrivalOrder, Algorithm::ArrivalOrder]).unwrap();
    assert_eq!(validation(&vec![Task::new("a", 0, 1, 1)], &ql), Ok(()));
    assert_eq!(
        validation(&vec![Task::new("a", 0, 1, 1), Task::new("b", 0, 1, 2)], &ql),
        Err(ConfigError::InvalidPriority)
    );
}

#[test]
fn arrival_order_serves_earlier_arrivals_first() {
    let queues = create_queue_list(vec![Algorithm::ArrivalOrder]).unwrap();
    let tasks = vec![
        Task::new("C", 2, 1, 0),
        Task::new("A", 0, 3, 0),
        Task::new("B", 1, 1, 0),
    ];
    let results = run_simulator(queues, tasks).unwrap();
    assert_eq!(
        results,
        vec![
            TaskResult::new("A", 3, 3),
            TaskResult::new("B", 4, 3),
            TaskResult::new("C", 5, 3),
        ]
    );
}

#[test]
fn fetch_new_tasks_returns_batch_in_arrival_order() {
    let mut pool = vec![
        Task::new("late", 4, 1, 0),
        Task::new("one", 1, 1, 0),
        Task::new("zero_a", 0, 1, 0),
        Task::new("one_b", 1, 1, 0),
        Task::new("zero_b", 0, 1, 0),
    ];
    let got = fetch_new_tasks(&mut pool, 1).unwrap();
    assert_eq!(
        got.iter().map(|t| t.name).collect::<Vec<_>>(),
        vec!["zero_a", "zero_b", "one", "one_b"]
    );
    assert_eq!(
        got.iter().map(|t| t.arrival_time).collect::<Vec<_>>(),
        vec![0, 0, 1, 1]
    );
    assert_eq!(pool.iter().map(|t| t.name).collect::<Vec<_>>(), vec!["late"]);
}
