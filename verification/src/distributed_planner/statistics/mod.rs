pub mod complexity;
pub mod complexity_cpu;
pub mod complexity_laws;
