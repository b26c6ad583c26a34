pub mod pipeline;
pub mod qubo;
