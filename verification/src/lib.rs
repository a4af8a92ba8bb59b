//! Control-plane model of a distributed firewall: node pools, rule sets and
//! their dependency index, a durable snapshot store, a live-subscriber
//! registry, and a cluster-membership reconciler.

pub mod codec;
pub mod config;
pub mod live;
pub mod reconcile;
pub mod store;
pub mod strmap;
