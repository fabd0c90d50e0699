pub mod clock;
pub mod collection;
pub mod executed_plan;
pub mod metric;
pub mod metrics_laws;
pub mod proto;
pub mod task_metrics_collector;
pub mod task_metrics_rewriter;
