//! A dispatcher of jobs to pools of worker processes.
//!
//! A manager owns one pool of workers for each job type. Each job goes to the
//! first idle worker of its type; when all of them are busy the manager waits
//! for a completion signal and reuses the worker that sent it.
//!
//! The library decides; it performs no input or output. Its caller spawns the
//! processes, moves the bytes and blocks on the channels, as the answers of
//! the manager and of the worker ask for.

pub mod config;
pub mod guarantees;
pub mod job_stream;
pub mod pool;
pub mod runtime;
pub mod text;
pub mod wire;
pub mod workers;

pub use config::{parse_worker_config, WorkerConfig};
pub use job_stream::{Job, JobStream};
pub use pool::Worker;
pub use runtime::run_worker;
pub use workers::Manager;
