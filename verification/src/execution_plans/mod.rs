pub mod children_isolator_union;
pub mod distributed;
pub mod network_broadcast;
pub mod network_shuffle;
pub mod partition_isolator;
pub mod partition_range;
pub mod sending_laws;
pub mod stage;
pub mod stage_display;
pub mod union_laws;
