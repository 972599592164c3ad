//! Queues that decide which cell is collapsed next, and the propagator that
//! carries the removal of options from cell to cell.

pub mod entrophy;
pub mod position;
pub mod propagator;
