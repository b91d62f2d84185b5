//! A low-overhead tracing library: span identifiers, per-thread span
//! collection, and the aggregator that stitches fragments back into traces.
pub mod id;
pub mod record;
pub mod reassembly;
pub mod global_collector;
pub mod spsc;
pub mod collect;
pub mod event;
