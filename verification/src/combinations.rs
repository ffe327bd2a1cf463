//! Counting the ways in which colours can share satisfied joins.

pub mod joins;

pub use joins::middle_joins;
