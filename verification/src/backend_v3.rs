//! The types a backend exchanges with the programs it runs.

use vstd::prelude::*;

verus! {

/// A program submitted to a backend, in its serialized form.
#[derive(Clone)]
pub struct QuantumProgram {
    pub placeholder: Vec<u8>,
}

/// The result of executing a program on a backend.
#[derive(Clone)]
pub struct ExecutionResult {
    pub placeholder: Vec<u32>,
}

/// The interface of a job object returned by a backend.
pub trait JobV2 {
    type Error;

    /// The job's identifier.
    fn job_id(&self) -> &str;

    /// The job's result, once it has one.
    fn result(&self) -> Result<ExecutionResult, Self::Error>;

    /// Cancel the job.
    fn cancel(&self);

    /// The job's status.
    fn status(&self) -> String;
}

} // verus!
