pub mod grid;
pub mod pattern;
pub mod prepare;
pub mod constraints;
pub mod laws;
pub mod solve;
pub mod evaluate;
pub mod dihedral;
