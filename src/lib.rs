//! Simulation core of a factory game: item stacks packed into bounded
//! inventories, recipes resolved against an item catalog, and machines that
//! consume inputs, run a timed craft and deliver outputs.

pub mod item;
pub mod inventory;
pub mod packing;
pub mod recipe;
pub mod machine;
pub mod state;
