//! A closed-loop HTTP load generator, reduced to the parts that can be
//! reasoned about: how a request budget is split over connections, how
//! every completed request is accounted for exactly once, and how latency
//! samples become the figures of the final report.
//!
//! Nothing in this crate touches the network, the clock or the file system.
//! A driver issues the requests, measures them and hands the outcomes in as
//! plain values; what comes back are plain values again.

pub mod connection_task;
pub mod decimal;
pub mod input_params;
pub mod notification;
pub mod partition;
pub mod report;
pub mod samples;
pub mod sorting;
pub mod statistics;
