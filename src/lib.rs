//! Control plane for a WireGuard mesh interface: value types, the source
//! document model, the peer-set builder and the reconciliation planner.

pub mod bin;
pub mod ip;
pub mod model;
pub mod config;
pub mod proto;
pub mod builder;
pub mod manager;
pub mod wg;
