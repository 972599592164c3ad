//! Errors of the collapse.

use vstd::prelude::*;
use crate::dimension::Dimensionality;

verus! {

/// The stage of a collapse at which a cell was found without options.
#[derive(Debug, Clone, Copy, PartialEq, Eq, Structural)]
pub enum CollapseErrorKind {
    /// The cell that was to be collapsed had no option left.
    Collapse,
    /// The tiles that were given at the start leave no option to a cell.
    Init,
    /// The cell lost its last option while the consequences of a collapse
    /// were drawn.
    Propagation,
}

/// A contradiction met during a collapse: a cell that is not collapsed and
/// cannot become any option.
#[derive(Debug)]
pub struct CollapseError<D: Dimensionality> {
    pub pos: D::Pos,
    pub kind: CollapseErrorKind,
    pub iter: u32,
}

impl<D: Dimensionality> CollapseError<D> {
    /// The error of the cell at the position, of the kind, after `iter`
    /// collapses.
    pub fn new(pos: D::Pos, kind: CollapseErrorKind, iter: u32) -> (r: Self)
        ensures
            r.pos == pos,
            r.kind == kind,
            r.iter == iter,
    {
        Self { pos, kind, iter }
    }

    /// Turns the position of a failure into an error of the given kind at
    /// the given iteration, and leaves a success as it is.
    pub fn from_result<T>(result: Result<T, D::Pos>, kind: CollapseErrorKind, iter: u32) -> (r:
        Result<T, Self>)
        ensures
            result is Ok ==> r is Ok && r->Ok_0 == result->Ok_0,
            result is Err ==> r is Err && r->Err_0.pos == result->Err_0 && r->Err_0.kind == kind
                && r->Err_0.iter == iter,
    {
        match result {
            Ok(val) => Ok(val),
            Err(pos) => Err(CollapseError::new(pos, kind, iter)),
        }
    }

    /// Position of the cell that was left without options.
    pub fn failed_pos(&self) -> (r: D::Pos)
        ensures
            r == self.pos,
    {
        self.pos
    }

    /// Whether another attempt, with other random numbers, may succeed. A
    /// contradiction among the tiles given at the start comes back in every
    /// attempt.
    pub fn is_probabilistic(&self) -> (r: bool)
        ensures
            r == !(self.kind is Init),
    {
        match self.kind {
            CollapseErrorKind::Init => false,
            _ => true,
        }
    }

    /// Number of cells that had been collapsed when the contradiction was
    /// met.
    pub fn failed_iter(&self) -> (r: u32)
        ensures
            r == self.iter,
    {
        self.iter
    }
}

/// A collapsed grid that cannot be put into a collapsible grid.
///
/// Either some of its tile types are no options of the collapsible grid, or
/// it is larger than the collapsible grid, or a tile of it cannot stand
/// where it is.
#[derive(Debug)]
pub struct CollapsibleGridError<D: Dimensionality> {
    pub missing_type_ids: Option<Vec<u64>>,
    pub sizes: Option<(D::Size, D::Size)>,
    pub position: Option<D::Pos>,
}

impl<D: Dimensionality> CollapsibleGridError<D> {
    /// The error of tile types that are no options.
    pub fn new_missing(missing_type_ids: Vec<u64>) -> (r: Self)
        ensures
            r.missing_type_ids == Some(missing_type_ids),
            r.sizes is None,
            r.position is None,
    {
        Self { missing_type_ids: Some(missing_type_ids), sizes: None, position: None }
    }

    /// The error of a source that is larger than its target.
    pub fn new_wrong_size(source_size: D::Size, target_size: D::Size) -> (r: Self)
        ensures
            r.missing_type_ids is None,
            r.sizes == Some((source_size, target_size)),
            r.position is None,
    {
        Self { missing_type_ids: None, sizes: Some((source_size, target_size)), position: None }
    }

    /// The error of a tile that cannot stand at its position.
    pub fn new_collapse(position: D::Pos) -> (r: Self)
        ensures
            r.missing_type_ids is None,
            r.sizes is None,
            r.position == Some(position),
    {
        Self { missing_type_ids: None, sizes: None, position: Some(position) }
    }

    /// The tile types that are no options, if that is what went wrong.
    pub fn missing_type_ids(&self) -> (r: &Option<Vec<u64>>)
        ensures
            *r == self.missing_type_ids,
    {
        &self.missing_type_ids
    }

    /// The size of the source and the size of the target, if the source is
    /// larger than the target.
    pub fn sizes(&self) -> (r: &Option<(D::Size, D::Size)>)
        ensures
            *r == self.sizes,
    {
        &self.sizes
    }

    /// The position of the tile that cannot stand where it is, if that is
    /// what went wrong.
    pub fn position(&self) -> (r: &Option<D::Pos>)
        ensures
            *r == self.position,
    {
        &self.position
    }
}

} // verus!
