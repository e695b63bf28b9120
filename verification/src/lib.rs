//! Logic-grid cells, evolved gate networks and the simulation rules around them.

pub mod ops;
pub mod random;
pub mod grid;
pub mod components;
pub mod dag;
pub mod gate;
pub mod gate_universal;
pub mod gate_multi;
pub mod tasks;
pub mod inputs;
pub mod targets;
pub mod universe;
pub mod life;
pub mod quine_grid;
pub mod quine16;
pub mod elements;
pub mod gpu_pack;
pub mod evolve;
pub mod frontier;
pub mod islands;
pub mod shapes;
pub mod threshold;
