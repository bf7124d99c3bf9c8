//! The record that makes one worker eligible for one function.

use crate::name::StaticName;
use vstd::prelude::*;

verus! {

/// One worker's offer of capacity for one function.
///
/// The type checks nothing itself: a record whose `max_concurrency` is zero can
/// be built, and the registry turns it away.
#[derive(Debug, PartialEq, Eq)]
pub struct FunctionWorkerConfig {
    /// The function that the record serves.
    pub function_name: StaticName,
    /// The worker that offers the capacity.
    pub worker_uuid: StaticName,
    /// Hard limit in milliseconds for one invocation; carried along, never read.
    pub timeout: u32,
    /// Invocations of the function that are running on the worker now.
    pub traffic: u32,
    /// The most invocations that the worker runs at a time.
    pub max_concurrency: u32,
}

impl FunctionWorkerConfig {
    /// Spare capacity: how many more invocations the worker can take. A record
    /// that carries more traffic than its limit has none.
    pub open spec fn spare(&self) -> int {
        if self.traffic >= self.max_concurrency {
            0
        } else {
            self.max_concurrency - self.traffic
        }
    }

    /// The same record with another load.
    pub open spec fn with_traffic(&self, traffic: u32) -> FunctionWorkerConfig {
        FunctionWorkerConfig {
            function_name: self.function_name,
            worker_uuid: self.worker_uuid,
            timeout: self.timeout,
            traffic,
            max_concurrency: self.max_concurrency,
        }
    }

    /// Computes the spare capacity.
    pub fn spare_capacity(&self) -> (spare: u32)
        ensures
            spare == self.spare(),
    {
        if self.traffic >= self.max_concurrency {
            0
        } else {
            self.max_concurrency - self.traffic
        }
    }

    /// A snapshot of the record, field for field.
    pub fn copy(&self) -> (snapshot: FunctionWorkerConfig)
        ensures
            snapshot == *self,
    {
        FunctionWorkerConfig {
            function_name: self.function_name,
            worker_uuid: self.worker_uuid,
            timeout: self.timeout,
            traffic: self.traffic,
            max_concurrency: self.max_concurrency,
        }
    }
}

impl Clone for FunctionWorkerConfig {
    /// A clone is a snapshot: it has every field of the record.
    fn clone(&self) -> (snapshot: FunctionWorkerConfig)
        ensures
            snapshot == *self,
    {
        self.copy()
    }
}

} // verus!
