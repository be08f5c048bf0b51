//! A same-host site crawler: a single dispatcher owns all crawl state and hands
//! fetch jobs to a pool of workers through messages.
pub mod dispatcher;
pub mod host;
pub mod links;
pub mod message;

pub use dispatcher::{Command, Dispatcher, Job, Slot};
pub use message::{JobStatus, Message, WorkerStatus, WorkerStep};
