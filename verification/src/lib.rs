//! Planning, metrics and wire logic of a distributed query engine.

pub mod benchmarks;
pub mod claims;
pub mod display;
pub mod distributed_planner;
pub mod examples;
pub mod execution_plans;
pub mod flight_service;
pub mod metrics;
pub mod protobuf;
pub mod protocol;
pub mod stage;
pub mod test_utils;
pub mod text;
