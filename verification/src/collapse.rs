//! Collapsible procedural generation.
//!
//! Every cell of a grid starts as a superposition of tile options. Collapsing
//! a cell chooses one of its options at random, by weight; the choice removes
//! options from the neighbours of the cell, and each removal may remove
//! options further away. A run ends when every cell holds one option, or
//! when a cell is left without any.

pub mod entropy;
pub mod option;
pub mod rules;
pub mod table;
pub mod random;
pub mod tile;
pub mod queue;
pub mod error;
pub mod subscriber;
pub mod grid;
pub mod purge;
pub mod resolver;
pub mod analyzer;
pub mod border;
pub mod support;
