pub mod annotation_laws;
pub mod annotation_text;
pub mod batch_coalescing_below_network_boundaries;
pub mod boundary_laws;
pub mod distributed_physical_optimizer_rule;
pub mod distribution_laws;
pub mod file_scan;
pub mod insert_broadcast;
pub mod maximum_laws;
pub mod network_boundary;
pub mod plan;
pub mod plan_annotator;
pub mod staged_plan;
pub mod statistics;
pub mod task_estimator;
