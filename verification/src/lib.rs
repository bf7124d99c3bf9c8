//! A least-busy-worker registry: for every function it keeps the workers that
//! can run it and answers which of them should take the next invocation.
//!
//! The registry is [`FunctionWorkerMap`]. Its contracts are stated over the
//! mathematical registry of [`model`]; [`ranking`] defines the order in which
//! workers are offered work, and [`laws`] proves what holds across calls.

pub mod config;
pub mod error;
pub mod function_worker_map;
pub mod laws;
pub mod model;
pub mod name;
pub mod ranking;
mod workers;

pub use crate::config::FunctionWorkerConfig;
pub use crate::error::{LoadError, RegistrationError, SelectionError};
pub use crate::function_worker_map::FunctionWorkerMap;
pub use crate::name::{checked_static_name, same_name, static_name_from_str, StaticName};
