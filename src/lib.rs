//! A discrete-time, multi-level queue CPU scheduling simulator.
//!
//! Tasks wait in a pending pool until their arrival tick, join the queue
//! selected by their priority, and every queue runs one task for one tick
//! per simulation step, following the queue's scheduling policy.
pub mod task;
pub mod policy;
pub mod simulator;
pub mod model;
pub mod laws;

pub use task::{State, Task, TaskResult};
pub use policy::{Algorithm, dispatch};
pub use simulator::{
    QueueList,
    ConfigError,
    fetch_new_tasks,
    add_task,
    add_result,
    dispatch_task,
    validation,
    create_queue_list,
    run_simulator,
};
