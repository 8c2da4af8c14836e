pub mod codecs;
pub mod datasquare;
pub mod error;
pub mod field;
pub mod hashing;
pub mod matrix;
pub mod repetition;
pub mod tree;
