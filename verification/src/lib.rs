//! A cooperative task scheduler for an embedded scripting runtime.
//!
//! The scheduler owns every suspendable execution context handed to it,
//! drives resumption through a FIFO queue and a timer set, and implements
//! the scheduling primitives `spawn`, `defer`, `delay`, `wait` and `cancel`
//! with verified ordering and cancellation semantics.

pub mod scheduler;
pub mod diagnostics;
pub mod laws;
pub mod sim;
