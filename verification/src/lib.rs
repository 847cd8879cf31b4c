//! The decisions of a Kafka source that feeds a timely dataflow.

pub mod capability;
pub mod closing;
pub mod connector;
pub mod downgrade;
pub mod history;
pub mod laws;
pub mod message;
pub mod order;
pub mod partitions;
pub mod reader;
pub mod runs;
pub mod turns;
pub mod untimed;
