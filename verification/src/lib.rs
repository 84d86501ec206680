//! A trace-driven simulator of distributed training jobs on a GPU cluster.
//!
//! Jobs of a trace arrive, are placed on the servers of a cluster, load, train and
//! complete. While they train they share the network of the servers, which slows them
//! down; the simulator says how long each job takes.
//!
//! - Inputs: `tables`, `profiles` and `job_trace` read CSV files; `simulation` starts
//!   a simulation of what they hold.
//! - The cluster: `gpu_cluster` holds its state; `placement` chooses servers,
//!   `resources` takes and returns them, `bandwidth` shares their network out.
//! - The jobs: `gpu_job` holds their state; `progress`, `colocation` and `completion`
//!   take their progress under the contention of the moment, and `cycles` and `jump`
//!   skip what repeats.
//! - Events: `timer` is the event queue, `gpu_scheduler` handles its events, `report` sums
//!   the results up.
//! - What holds throughout: `liveness` (no step fails), `conservation` (everything the
//!   servers have is free or held) and `accounting` (every job is somewhere, and in the
//!   end complete), `waiting` (what the waits of a job are made of) and `phases` (what each
//!   event does to its job, and when the next one comes).
//!
//! All of it is generic in its numbers: see `scalar`, and `rounding` for the laws that hold
//! up to rounding.

pub mod accounting;
pub mod bandwidth;
pub mod colocation;
pub mod completion;
pub mod conservation;
pub mod corun;
pub mod cycles;
pub mod gpu_cluster;
pub mod gpu_job;
pub mod gpu_scheduler;
pub mod interference;
pub mod job_trace;
pub mod jump;
pub mod lcm_utils;
pub mod lists;
pub mod liveness;
pub mod phases;
pub mod placement;
pub mod profiles;
pub mod progress;
pub mod ranking;
pub mod report;
pub mod resources;
pub mod rounding;
pub mod scalar;
pub mod simulation;
pub mod tables;
pub mod text;
pub mod timer;
pub mod waiting;
