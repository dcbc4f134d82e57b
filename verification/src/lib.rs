pub mod possibilities;
pub mod square;
pub mod group;
pub mod board;
pub mod text;
pub mod programmed_iterator;
pub mod laws;
pub mod preserve;
