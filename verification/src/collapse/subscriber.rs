//! Subscribers to the events of a collapse.

use vstd::prelude::*;
use crate::dimension::Dimensionality;

verus! {

/// Receives the events of a collapse: its start, and each cell as it is
/// collapsed.
///
/// What an event makes of a subscriber is for the subscriber to say: each
/// kind of subscriber states, for both events, which states it may be in
/// after the event, given the state in which the event met it.
pub trait Subscriber<D: Dimensionality>: Sized {
    /// Whether `after` is a state in which the subscriber may be once it has
    /// been told, in this state, that a collapse starts. A subscriber that
    /// says nothing else may be in any state.
    open spec fn spec_started(&self, after: &Self) -> bool {
        true
    }

    /// Whether `after` is a state in which the subscriber may be once it has
    /// been told, in this state, that the cell at the position has become a
    /// tile of the type. A subscriber that says nothing else may be in any
    /// state.
    open spec fn spec_collapsed(&self, position: D::Pos, tile_type_id: u64, after: &Self) -> bool {
        true
    }

    /// Called once when a collapse starts.
    fn on_generation_start(&mut self)
        ensures
            old(self).spec_started(final(self)),
    ;

    /// Called each time a cell has been collapsed, with the position of the
    /// cell and the tile type that it has become.
    fn on_collapse(&mut self, position: &D::Pos, tile_type_id: u64)
        ensures
            old(self).spec_collapsed(*position, tile_type_id, final(self)),
    ;
}

/// The subscriber that ignores every event.
impl<D: Dimensionality> Subscriber<D> for () {
    fn on_generation_start(&mut self) {
    }

    fn on_collapse(&mut self, position: &D::Pos, tile_type_id: u64) {
    }
}

/// One cell that was collapsed: its position and the tile type that it has
/// become.
#[derive(Debug)]
pub struct CollapseHistoryItem<D: Dimensionality> {
    pub position: D::Pos,
    pub tile_type_id: u64,
}

/// Subscriber that records the cells of a collapse in the order in which
/// they were collapsed. The start of a collapse clears the record.
pub struct CollapseHistorySubscriber<D: Dimensionality> {
    pub history: Vec<CollapseHistoryItem<D>>,
}

impl<D: Dimensionality> CollapseHistorySubscriber<D> {
    /// Creates a subscriber with an empty record.
    pub fn new() -> (r: Self)
        ensures
            r.history@.len() == 0,
    {
        Self { history: Vec::new() }
    }

    /// The record of the collapse.
    pub fn history(&self) -> (r: &Vec<CollapseHistoryItem<D>>)
        ensures
            *r == self.history,
    {
        &self.history
    }
}

impl<D: Dimensionality> Subscriber<D> for CollapseHistorySubscriber<D> {
    /// The start of a collapse leaves the record empty.
    open spec fn spec_started(&self, after: &Self) -> bool {
        after.history@.len() == 0
    }

    /// A collapsed cell is put behind the record.
    open spec fn spec_collapsed(&self, position: D::Pos, tile_type_id: u64, after: &Self) -> bool {
        after.history@ == self.history@.push(CollapseHistoryItem { position, tile_type_id })
    }

    fn on_generation_start(&mut self) {
        self.history.clear();
    }

    fn on_collapse(&mut self, position: &D::Pos, tile_type_id: u64) {
        self.history.push(CollapseHistoryItem { position: *position, tile_type_id });
    }
}

} // verus!
