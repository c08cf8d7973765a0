//! The integer parameters of a render, checked before any work is
//! scheduled.

use vstd::prelude::*;

verus! {

/// Why a set of parameters cannot be rendered.
#[derive(Clone, Copy, Debug, PartialEq, Eq, Structural)]
pub enum SettingsError {
    /// The grid has no columns.
    NoColumns,
    /// The grid has no rows.
    NoRows,
    /// The number of cells does not fit the machine word.
    TooManyCells,
    /// The list of roots is empty.
    NoRoots,
    /// The iteration cap is zero.
    NoIterations,
    /// The stride between two scans of the roots is zero.
    NoStride,
    /// The pool has no worker.
    NoWorkers,
}

/// The integer parameters of a render.
#[derive(Clone, Copy, Debug, PartialEq, Eq, Structural)]
pub struct RenderSettings {
    /// Columns of the grid.
    pub width: usize,
    /// Rows of the grid.
    pub height: usize,
    /// Number of roots; it is also the index given to a pixel that reached
    /// none of them.
    pub roots: usize,
    /// Cap on the updates of one pixel.
    pub iterations: usize,
    /// The roots are scanned after every update whose number is a multiple
    /// of the stride.
    pub stride: usize,
    /// Threads of the pool.
    pub workers: u32,
    /// Radius of the blur kernel.
    pub blur_radius: u8,
    /// Whether pixels are iterated in batches of eight.
    pub batched: bool,
}

impl RenderSettings {
    /// The first fault of the parameters, in the order of the variants of
    /// `SettingsError`, or `None` where they can be rendered.
    pub open spec fn fault(&self) -> Option<SettingsError> {
        if self.width == 0 {
            Some(SettingsError::NoColumns)
        } else if self.height == 0 {
            Some(SettingsError::NoRows)
        } else if self.width * self.height > usize::MAX {
            Some(SettingsError::TooManyCells)
        } else if self.roots == 0 {
            Some(SettingsError::NoRoots)
        } else if self.iterations == 0 {
            Some(SettingsError::NoIterations)
        } else if self.stride == 0 {
            Some(SettingsError::NoStride)
        } else if self.workers == 0 {
            Some(SettingsError::NoWorkers)
        } else {
            None
        }
    }

    /// The parameters can be rendered: the grid has cells and their number
    /// fits the machine word, there is a root, and the cap, the stride and
    /// the number of workers are positive.
    pub open spec fn valid(&self) -> bool {
        &&& self.width > 0
        &&& self.height > 0
        &&& self.width * self.height <= usize::MAX
        &&& self.roots > 0
        &&& self.iterations > 0
        &&& self.stride > 0
        &&& self.workers > 0
    }

    /// Checks the parameters and names their first fault.
    pub fn check(&self) -> (result: Result<(), SettingsError>)
        ensures
            result == match self.fault() {
                Some(fault) => Err::<(), SettingsError>(fault),
                None => Ok(()),
            },
            result is Ok <==> self.valid(),
    {
        if self.width == 0 {
            Err(SettingsError::NoColumns)
        } else if self.height == 0 {
            Err(SettingsError::NoRows)
        } else if self.width.checked_mul(self.height).is_none() {
            Err(SettingsError::TooManyCells)
        } else if self.roots == 0 {
            Err(SettingsError::NoRoots)
        } else if self.iterations == 0 {
            Err(SettingsError::NoIterations)
        } else if self.stride == 0 {
            Err(SettingsError::NoStride)
        } else if self.workers == 0 {
            Err(SettingsError::NoWorkers)
        } else {
            Ok(())
        }
    }

    /// Number of cells of the grid.
    pub fn cells(&self) -> (cells: usize)
        requires
            self.valid(),
        ensures
            cells == self.width * self.height,
    {
        self.width * self.height
    }
}

} // verus!
