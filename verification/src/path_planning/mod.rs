pub mod graphs_heuristics;
pub mod polyanya;
