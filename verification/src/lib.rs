//! Core decision logic of a small asynchronous runtime: the reactor's timer
//! queue and readiness registry, the request protocol between runtime handles
//! and the reactor, and the state of the futures the runtime offers.

pub mod custom_futures;
pub mod iteration;
pub mod reactor;
pub mod runtime;
pub mod timer_queue;
pub mod timer_runs;
