//! A small distributed-counter library: the counter entity itself, the
//! HTTP service's handler logic over JSON bodies, and the decision logic
//! of the polling client that mirrors the counter into a UI.

pub mod bridge;
pub mod client;
pub mod codec;
pub mod counter;
pub mod service;

pub use counter::Counter;
