//! A chain of handlers that a value is driven through, newest handler first.
//!
//! Handlers are registered in order; an execution starts at the most recently
//! registered one, and each handler either finishes with a result or hands a
//! (possibly changed) value on to the handler registered just before it.
pub mod manager;
pub mod middleware;

pub use manager::{ChainError, Manager, Next, Step};
pub use middleware::Middleware;
