pub mod do_get;
pub mod task_table;
