pub mod memory;
pub mod tpcds;
