pub mod frontier;
pub mod funnel;
pub mod geometry;
pub mod navmesh;
pub mod defer;
pub mod sim;
pub mod state;

pub use defer::defer;
