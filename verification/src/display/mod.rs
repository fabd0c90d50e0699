pub mod ascii;
pub mod graph_laws;
pub mod graphviz;
pub mod metrics_text;
pub mod shown_plan;
pub mod stage_graph;
