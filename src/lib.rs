//! State provisioning and access-list instrumentation for a forked EVM sandbox.

pub mod access_list;
pub mod assoc;
pub mod backend;
pub mod cache;
pub mod hex;
pub mod types;
