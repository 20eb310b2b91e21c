//! A small executor for modules that call one another asynchronously.
//!
//! Each module owns a submission queue of incoming calls, a completion queue
//! of answers to the calls its own tasks made, and an executor that turns
//! submitted calls into tasks and decides which task runs next.  The running
//! of the tasks themselves (the futures) is left to the caller: the library
//! decides, the caller polls.

pub mod executor;
pub mod laws;
pub mod manager;
pub mod module;
mod queue;
pub mod test_future;
pub mod types;

pub use types::{AsyncCallArguments, AsyncCallReturnValue};
