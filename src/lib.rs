//! A genetic-algorithm engine that evolves bit-string genomes, together with
//! the maze and path model that the genomes are scored against.

pub mod diversity;
pub mod genetics;
pub mod genome;
pub mod maze;
pub mod path;
pub mod random;
pub mod ranking;
