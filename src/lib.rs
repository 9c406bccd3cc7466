pub mod arena;
pub mod grid;
pub mod invariants;
pub mod search;
pub mod walls;
