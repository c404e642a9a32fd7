//! Backend selection for an RPC load balancer: a per-backend latency model and
//! the engine that ranks eligible backends and picks one under fairness and
//! throttle rules.

pub mod clock;
pub mod error;
pub mod health;
pub mod hex;
pub mod select;
