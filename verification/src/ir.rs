//! The block-matrix IR: kernels, block matrices and their shape checks.
//!
//! A kernel parameter is a `D x D` matrix of single-precision numbers. The
//! library never computes with those numbers: it moves them, compares them bit
//! for bit and hands them to the numeric layer. It therefore holds each entry
//! by its IEEE-754 bit pattern (`f32::to_bits`), which stands for the number
//! one for one.
use vstd::prelude::*;

verus! {

/// Width of one base block (phase one: `d = 2`).
pub const D: usize = 2;

/// A `D x D` parameter matrix, row major, each entry held by its IEEE-754
/// single-precision bit pattern.
pub type Mat2 = [[u32; 2]; 2];

/// A kernel reference of the source IR: exactly three variants.
#[derive(Debug, Clone, Copy, PartialEq, Eq)]
pub enum KernelRef {
    /// A general `d x d` parameter matrix.
    General(Mat2),
    /// The identity kernel `I_d`.
    Id,
    /// The zero kernel `0_{d x d}`.
    Zero,
}

/// The one IR node: an `n x m` block matrix `BlockMat(rows, cols, grid)`,
/// with `grid[i][j]` the kernel in block row `i` and block column `j`.
#[derive(Debug, Clone, PartialEq)]
pub struct BlockMat {
    /// Number of output blocks `n`.
    pub rows: usize,
    /// Number of input blocks `m`.
    pub cols: usize,
    /// The `n x m` grid of kernels.
    pub grid: Vec<Vec<KernelRef>>,
}

/// Why a block matrix, or the arguments of a constructor, were refused.
#[derive(Debug, Clone, PartialEq, Eq)]
pub enum ValidationError {
    ZeroDimension,
    RowCountMismatch { expected: usize, actual: usize },
    ColCountMismatch { row: usize, expected: usize, actual: usize },
    DimensionMismatch { left_cols: usize, right_rows: usize },
    IndexOutOfRange { index: usize, upper_bound: usize },
    ArityTooSmall { op: &'static str, min: usize, actual: usize },
    EmptyBimap,
}

impl BlockMat {
    /// The grid as a sequence of rows, each a sequence of kernels.
    pub open spec fn cells(&self) -> Seq<Seq<KernelRef>> {
        self.grid@.map_values(|row: Vec<KernelRef>| row@)
    }

    /// The grid has exactly `rows` rows of exactly `cols` kernels each.
    pub open spec fn shape_ok(&self) -> bool {
        &&& self.grid@.len() == self.rows
        &&& forall|i: int| 0 <= i < self.rows ==> #[trigger] self.grid@[i]@.len() == self.cols
    }

    /// The matrix is well formed: both dimensions are at least one and the
    /// grid has the stated shape. This is what `validate` accepts.
    pub open spec fn well_formed(&self) -> bool {
        &&& self.rows >= 1
        &&& self.cols >= 1
        &&& self.shape_ok()
    }

    /// The kernel in block row `i`, block column `j`.
    pub open spec fn cell(&self, i: int, j: int) -> KernelRef {
        self.grid@[i]@[j]
    }

    /// Type signature `(source, target) = (Blocks(m), Blocks(n))`.
    pub fn type_of(&self) -> (r: (usize, usize))
        ensures
            r == (self.cols, self.rows),
    {
        (self.cols, self.rows)
    }

    /// Checks the grid's dimensions.
    ///
    /// The first failing check decides the error: a zero dimension, then the
    /// number of rows, then the first row (from the top) of the wrong length.
    pub fn validate(&self) -> (r: Result<(), ValidationError>)
        ensures
            r is Ok <==> self.well_formed(),
            (self.rows == 0 || self.cols == 0) <==> r == Err::<(), ValidationError>(
                ValidationError::ZeroDimension,
            ),
            (self.rows >= 1 && self.cols >= 1 && self.grid@.len() != self.rows) ==> r == Err::<
                (),
                ValidationError,
            >(ValidationError::RowCountMismatch { expected: self.rows, actual: self.grid@.len() as usize }),
            (self.rows >= 1 && self.cols >= 1 && self.grid@.len() == self.rows && !self.shape_ok())
                ==> exists|i: int|
                0 <= i < self.rows && self.grid@[i]@.len() != self.cols && (forall|k: int|
                    0 <= k < i ==> #[trigger] self.grid@[k]@.len() == self.cols) && r == Err::<
                    (),
                    ValidationError,
                >(
                    ValidationError::ColCountMismatch {
                        row: i as usize,
                        expected: self.cols,
                        actual: self.grid@[i]@.len() as usize,
                    },
                ),
    {
        if self.rows == 0 || self.cols == 0 {
            return Err(ValidationError::ZeroDimension);
        }
        if self.grid.len() != self.rows {
            return Err(
                ValidationError::RowCountMismatch { expected: self.rows, actual: self.grid.len() },
            );
        }
        let mut i: usize = 0;
        while i < self.grid.len()
            invariant
                0 <= i <= self.grid@.len(),
                self.grid@.len() == self.rows,
                self.rows >= 1,
                self.cols >= 1,
                forall|k: int| 0 <= k < i ==> #[trigger] self.grid@[k]@.len() == self.cols,
            decreases self.grid@.len() - i,
        {
            let len = self.grid[i].len();
            if len != self.cols {
                return Err(
                    ValidationError::ColCountMismatch { row: i, expected: self.cols, actual: len },
                );
            }
            i = i + 1;
        }
        Ok(())
    }
}

} // verus!
