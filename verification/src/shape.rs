//! Shapes of row-major matrices and the rule for multiplying them.

use vstd::prelude::*;

verus! {

/// The number of rows and columns of a matrix stored row by row.
#[derive(Clone, Copy, Debug, PartialEq, Eq, Structural)]
pub struct Shape {
    pub rows: usize,
    pub cols: usize,
}

/// Two matrices cannot be multiplied.
#[derive(Clone, Copy, Debug, PartialEq, Eq, Structural)]
pub enum ShapeError {
    /// The left matrix has `left_cols` columns, the right one `right_rows`
    /// rows.
    DimensionMismatch { left_cols: usize, right_rows: usize },
    /// The matrix is no transform of homogeneous points: it is not four
    /// by four.
    NotATransform { rows: usize, cols: usize },
}

impl Shape {
    /// The number of cells.
    pub open spec fn cells(&self) -> nat {
        (self.rows * self.cols) as nat
    }

    /// The shape of the product `self × right`: defined where `self` has
    /// as many columns as `right` has rows.
    pub fn product(&self, right: &Shape) -> (r: Result<Shape, ShapeError>)
        ensures
            r == (if self.cols == right.rows {
                Ok::<Shape, ShapeError>(Shape { rows: self.rows, cols: right.cols })
            } else {
                Err(ShapeError::DimensionMismatch { left_cols: self.cols, right_rows: right.rows })
            }),
    {
        if self.cols == right.rows {
            Ok(Shape { rows: self.rows, cols: right.cols })
        } else {
            Err(ShapeError::DimensionMismatch { left_cols: self.cols, right_rows: right.rows })
        }
    }

    /// The shape of point rows after a transform: the transform must be
    /// four by four and the rows must hold four coordinates; the shape of
    /// the rows is kept.
    pub fn transformed(&self, transform: &Shape) -> (r: Result<Shape, ShapeError>)
        ensures
            r == (if transform.rows != 4 || transform.cols != 4 {
                Err::<Shape, ShapeError>(
                    ShapeError::NotATransform { rows: transform.rows, cols: transform.cols },
                )
            } else if self.cols != 4 {
                Err(ShapeError::DimensionMismatch { left_cols: self.cols, right_rows: 4 })
            } else {
                Ok(*self)
            }),
    {
        if transform.rows != 4 || transform.cols != 4 {
            Err(ShapeError::NotATransform { rows: transform.rows, cols: transform.cols })
        } else if self.cols != 4 {
            Err(ShapeError::DimensionMismatch { left_cols: self.cols, right_rows: 4 })
        } else {
            Ok(*self)
        }
    }

    /// Where the cell at `row` and `col` stands in the buffer.
    pub fn offset(&self, row: usize, col: usize) -> (at: usize)
        requires
            row < self.rows,
            col < self.cols,
            self.rows * self.cols <= usize::MAX,
        ensures
            at == row * self.cols + col,
            at < self.cells(),
    {
        assert(0 <= row * self.cols && row * self.cols + col < self.rows * self.cols)
            by (nonlinear_arith)
            requires
                0 <= row < self.rows,
                0 <= col < self.cols,
        ;
        row * self.cols + col
    }
}

} // verus!
