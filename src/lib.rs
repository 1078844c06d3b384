//! Core of a modular software synthesizer: a real-time message queue, the
//! worker's graph and message handling, the musical-time state machine, the
//! clip and track model, and the control-side engine that drives the worker.

pub mod clip;
pub mod engine;
pub mod graph;
pub mod ids;
pub mod message;
pub mod queue;
pub mod ring;
pub mod tempo;
pub mod timesync;
pub mod track;
pub mod worker;
