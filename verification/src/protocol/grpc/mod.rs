pub mod metrics_proto;
pub mod worker;
