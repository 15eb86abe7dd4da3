pub mod authority;
pub mod grid;
pub mod items;
pub mod maze;
mod rng;
pub mod seq_facts;
pub mod state;
