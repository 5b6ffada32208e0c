//! An ordered parallel pipeline engine.
//!
//! One source stage cuts a unit of work into sequence-numbered fragments and
//! hands them round-robin to parallel lanes; the worker stages of a lane
//! transform each fragment in turn; one sink stage collects what the lanes
//! deliver and restores the order of emission. The stages talk over bounded
//! channels and learn of the end of their input by the closing of a channel.
//!
//! The pieces, leaves first:
//!
//! * [`fragment`], [`channel`], [`stage_id`]: what flows, and through what;
//! * [`distributor`], [`reassembler`], [`reorder`]: the fan-out and fan-in
//!   policies, with the laws of fairness and of order preservation;
//! * [`stage`], [`worker`], [`sink`]: the life cycle of a stage and the
//!   stages at run time, one step at a time;
//! * [`graph`], [`layout`]: the topology of a run;
//! * [`transform`]: what the engine knows of the per-fragment transform;
//! * [`model`]: the pipeline as a state machine, with the proofs that hold
//!   of every schedule: no fragment is lost or doubled, no run deadlocks,
//!   every run ends within a bounded number of steps;
//! * [`runner`], [`scheduler`], [`stagewise`]: the runners;
//! * [`blocks`], [`filters`], [`workload`], [`bench`]: what the workloads
//!   bring along: block slicing and joining, image filters, pipeline
//!   shapes, benchmark scripts.

pub mod bench;
pub mod blocks;
pub mod channel;
pub mod distributor;
pub mod filters;
pub mod fragment;
pub mod graph;
pub mod layout;
pub mod model;
mod moves;
pub mod reassembler;
pub mod reorder;
pub mod runner;
pub mod scheduler;
pub mod sink;
pub mod stage;
pub mod stage_id;
pub mod stagewise;
pub mod transform;
pub mod worker;
pub mod workload;
