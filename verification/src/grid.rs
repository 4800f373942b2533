//! Two-dimensional grids of values, held in an `ndarray::Array2` in row-major
//! order, with their contents named for the contracts.

use vstd::prelude::*;

verus! {

/// The error `ndarray` gives when a vector does not fill a shape.
#[verifier::external_type_specification]
#[verifier::external_body]
pub struct ExShapeError(ndarray::ShapeError);

/// A grid of 64-bit values.
#[verifier::external_body]
pub struct ValueGrid {
    cells: ndarray::Array2<u64>,
}

/// A grid of texts.
#[verifier::external_body]
pub struct TextGrid {
    cells: ndarray::Array2<String>,
}

/// The rows of a value grid, each row its values in column order.
pub uninterp spec fn value_cells(g: ValueGrid) -> Seq<Seq<u64>>;

/// The rows of a text grid, each row its texts in column order.
pub uninterp spec fn text_cells(g: TextGrid) -> Seq<Seq<Seq<char>>>;

/// `cells` has `rows` rows of `cols` entries, entry `(i, j)` being `v[i * cols + j]`.
pub open spec fn row_major<T>(cells: Seq<Seq<T>>, rows: int, cols: int, v: Seq<T>) -> bool {
    &&& cells.len() == rows
    &&& forall|i: int|
        #![trigger cells[i]]
        0 <= i < rows ==> cells[i].len() == cols && forall|j: int|
            0 <= j < cols ==> cells[i][j] == v[i * cols + j]
}

/// Lays the values `v` out as `rows` rows of `cols` values.
///
/// Trusted: `Array2::from_shape_vec` (ndarray) with a `(rows, cols)` shape. The
/// contract claims what its source shows for dimensions that fit in an `i32`: it
/// succeeds exactly when the shape holds as many entries as `v`, and then reads
/// `v` in row-major order.
#[verifier::external_body]
fn value_grid_from_vec(rows: usize, cols: usize, v: Vec<u64>) -> (r: Result<
    ValueGrid,
    ndarray::ShapeError,
>)
    requires
        rows <= 0x7fff_ffff,
        cols <= 0x7fff_ffff,
    ensures
        r is Ok <==> rows * cols == v@.len(),
        r matches Ok(g) ==> row_major(value_cells(g), rows as int, cols as int, v@),
{
    match ndarray::Array2::from_shape_vec((rows, cols), v) {
        Ok(cells) => Ok(ValueGrid { cells }),
        Err(e) => Err(e),
    }
}

/// Lays the texts `v` out as `rows` rows of `cols` texts.
///
/// Trusted: `Array2::from_shape_vec` (ndarray) with a `(rows, cols)` shape; the
/// contract claims the same as for value grids.
#[verifier::external_body]
fn text_grid_from_vec(rows: usize, cols: usize, v: Vec<String>) -> (r: Result<
    TextGrid,
    ndarray::ShapeError,
>)
    requires
        rows <= 0x7fff_ffff,
        cols <= 0x7fff_ffff,
    ensures
        r is Ok <==> rows * cols == v@.len(),
        r matches Ok(g) ==> row_major(
            text_cells(g),
            rows as int,
            cols as int,
            v@.map_values(|s: String| s@),
        ),
{
    match ndarray::Array2::from_shape_vec((rows, cols), v) {
        Ok(cells) => Ok(TextGrid { cells }),
        Err(e) => Err(e),
    }
}

/// The value in row `i` and column `j`.
///
/// Trusted: indexing an `Array2` (ndarray) with `[[i, j]]`; the contract claims
/// that it gives that entry. It panics outside the grid, which `requires` rules out.
#[verifier::external_body]
fn value_at(g: &ValueGrid, i: usize, j: usize) -> (v: u64)
    requires
        i < value_cells(*g).len(),
        j < value_cells(*g)[i as int].len(),
    ensures
        v == value_cells(*g)[i as int][j as int],
{
    g.cells[[i, j]]
}

/// The text in row `i` and column `j`.
///
/// Trusted: indexing an `Array2` (ndarray) with `[[i, j]]`; the contract claims
/// that it gives that entry. It panics outside the grid, which `requires` rules out.
#[verifier::external_body]
fn text_at(g: &TextGrid, i: usize, j: usize) -> (s: &String)
    requires
        i < text_cells(*g).len(),
        j < text_cells(*g)[i as int].len(),
    ensures
        s@ == text_cells(*g)[i as int][j as int],
{
    &g.cells[[i, j]]
}

impl ValueGrid {
    /// Lays `v` out as `rows` rows of `cols` values, or gives `None` when `v` does
    /// not hold exactly `rows * cols` values.
    pub fn from_row_major(rows: usize, cols: usize, v: Vec<u64>) -> (r: Option<ValueGrid>)
        requires
            rows <= 0x7fff_ffff,
            cols <= 0x7fff_ffff,
        ensures
            r is Some <==> rows * cols == v@.len(),
            r matches Some(g) ==> row_major(value_cells(g), rows as int, cols as int, v@),
    {
        match value_grid_from_vec(rows, cols, v) {
            Ok(g) => Some(g),
            Err(_) => None,
        }
    }

    /// The value in row `i` and column `j`.
    pub fn get(&self, i: usize, j: usize) -> (v: u64)
        requires
            i < value_cells(*self).len(),
            j < value_cells(*self)[i as int].len(),
        ensures
            v == value_cells(*self)[i as int][j as int],
    {
        value_at(self, i, j)
    }
}

impl TextGrid {
    /// Lays `v` out as `rows` rows of `cols` texts, or gives `None` when `v` does
    /// not hold exactly `rows * cols` texts.
    pub fn from_row_major(rows: usize, cols: usize, v: Vec<String>) -> (r: Option<TextGrid>)
        requires
            rows <= 0x7fff_ffff,
            cols <= 0x7fff_ffff,
        ensures
            r is Some <==> rows * cols == v@.len(),
            r matches Some(g) ==> row_major(
                text_cells(g),
                rows as int,
                cols as int,
                v@.map_values(|s: String| s@),
            ),
    {
        match text_grid_from_vec(rows, cols, v) {
            Ok(g) => Some(g),
            Err(_) => None,
        }
    }

    /// The text in row `i` and column `j`.
    pub fn get(&self, i: usize, j: usize) -> (s: &String)
        requires
            i < text_cells(*self).len(),
            j < text_cells(*self)[i as int].len(),
        ensures
            s@ == text_cells(*self)[i as int][j as int],
    {
        text_at(self, i, j)
    }
}

} // verus!
