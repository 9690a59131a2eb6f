//! The hosted receiver: durable scan jobs and what the receiver does with them.

pub mod admission;
pub mod dispatcher;
pub mod job_laws;
pub mod lifecycle;
pub mod link_laws;
pub mod pull_request_job_store;
pub mod queue_laws;
pub mod requests;
pub mod review;
pub mod review_laws;
pub mod scan;
pub mod service_laws;
pub mod step_laws;
pub mod webhook;
