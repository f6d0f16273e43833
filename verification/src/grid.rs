use vstd::prelude::*;

verus! {

/// A two-dimensional table of samples, stored row by row.
///
/// Samples sit at the corners of the grid cells, not at their centres.
pub struct Grid<T>(pub Vec<Vec<T>>);

impl<T> Grid<T> {
    /// The sample at `(row, col)` exists.
    pub open spec fn has(self, row: int, col: int) -> bool {
        &&& 0 <= row < self.0@.len()
        &&& 0 <= col < self.0@[row]@.len()
    }

    /// The sample at `(row, col)`.
    pub open spec fn at(self, row: int, col: int) -> T {
        self.0@[row]@[col]
    }

    /// The four samples round the cell whose low corner is `(row_lo, col_lo)`
    /// exist.
    pub open spec fn has_cell(self, row_lo: int, col_lo: int) -> bool {
        &&& self.has(row_lo, col_lo)
        &&& self.has(row_lo, col_lo + 1)
        &&& self.has(row_lo + 1, col_lo)
        &&& self.has(row_lo + 1, col_lo + 1)
    }

    fn sample(&self, row: usize, col: usize) -> (r: Option<&T>)
        ensures
            r is Some <==> self.has(row as int, col as int),
            r matches Some(v) ==> *v == self.at(row as int, col as int),
    {
        if row < self.0.len() {
            let line = &self.0[row];
            if col < line.len() {
                return Some(&line[col]);
            }
        }
        None
    }

    /// The samples at the four corners of the cell whose low corner is
    /// `(row_lo, col_lo)`, in the order (low row, low col), (low row, high col),
    /// (high row, low col), (high row, high col); `None` when one of them is
    /// outside the grid.
    pub fn cell_corners(&self, row_lo: usize, col_lo: usize) -> (r: Option<(&T, &T, &T, &T)>)
        ensures
            r is Some <==> self.has_cell(row_lo as int, col_lo as int),
            r matches Some((ll, lh, hl, hh)) ==> {
                &&& *ll == self.at(row_lo as int, col_lo as int)
                &&& *lh == self.at(row_lo as int, col_lo + 1)
                &&& *hl == self.at(row_lo + 1, col_lo as int)
                &&& *hh == self.at(row_lo + 1, col_lo + 1)
            },
    {
        if row_lo == usize::MAX {
            // the grid has fewer than `usize::MAX + 1` rows
            let _ = self.0.len();
            return None;
        }
        if col_lo == usize::MAX {
            if row_lo < self.0.len() {
                // a row is no longer than `usize::MAX`
                let _ = self.0[row_lo].len();
            }
            return None;
        }
        let row_hi = row_lo + 1;
        let col_hi = col_lo + 1;
        let ll = match self.sample(row_lo, col_lo) {
            Some(v) => v,
            None => return None,
        };
        let lh = match self.sample(row_lo, col_hi) {
            Some(v) => v,
            None => return None,
        };
        let hl = match self.sample(row_hi, col_lo) {
            Some(v) => v,
            None => return None,
        };
        let hh = match self.sample(row_hi, col_hi) {
            Some(v) => v,
            None => return None,
        };
        Some((ll, lh, hl, hh))
    }
}

/// Reading a cell: the four samples come back exactly when rows `row_lo` and
/// `row_lo + 1` exist and both reach column `col_lo + 1`, and they are the
/// samples at (row_lo, col_lo), (row_lo, col_lo + 1), (row_lo + 1, col_lo)
/// and (row_lo + 1, col_lo + 1), in that order.
pub proof fn law_cell_corners<T>(
    g: Grid<T>,
    row_lo: usize,
    col_lo: usize,
    r: Option<(&T, &T, &T, &T)>,
)
    requires
        call_ensures(Grid::<T>::cell_corners, (&g, row_lo, col_lo), r),
    ensures
        r is Some <==> {
            &&& row_lo + 1 < g.0@.len()
            &&& col_lo + 1 < g.0@[row_lo as int]@.len()
            &&& col_lo + 1 < g.0@[row_lo + 1]@.len()
        },
        r matches Some((ll, lh, hl, hh)) ==> {
            &&& *ll == g.0@[row_lo as int]@[col_lo as int]
            &&& *lh == g.0@[row_lo as int]@[col_lo + 1]
            &&& *hl == g.0@[row_lo + 1]@[col_lo as int]
            &&& *hh == g.0@[row_lo + 1]@[col_lo + 1]
        },
{
}

impl<T> Grid<T> {
    /// The grid has `height` rows of `width` samples each.
    pub open spec fn has_shape(self, height: int, width: int) -> bool {
        &&& self.0@.len() == height
        &&& forall|row: int| 0 <= row < height ==> (#[trigger] self.0@[row])@.len() == width
    }

    /// A grid of `height` rows of `width` samples, with `f(row, col)` at
    /// `(row, col)`; rows are filled in turn, each from left to right.
    pub fn tabulate<F: Fn(usize, usize) -> T>(height: usize, width: usize, f: F) -> (r: Self)
        requires
            forall|row: usize, col: usize|
                row < height && col < width ==> #[trigger] f.requires((row, col)),
        ensures
            r.has_shape(height as int, width as int),
            forall|row: usize, col: usize|
                row < height && col < width ==> #[trigger] f.ensures(
                    (row, col),
                    r.at(row as int, col as int),
                ),
    {
        let mut rows: Vec<Vec<T>> = Vec::new();
        let mut row: usize = 0;
        while row < height
            invariant
                row <= height,
                rows@.len() == row,
                forall|r: usize, c: usize|
                    r < height && c < width ==> #[trigger] f.requires((r, c)),
                forall|i: int| 0 <= i < row ==> (#[trigger] rows@[i])@.len() == width,
                forall|r: usize, c: usize|
                    r < row && c < width ==> #[trigger] f.ensures((r, c), rows@[r as int]@[c as int]),
            decreases height - row,
        {
            let mut line: Vec<T> = Vec::new();
            let mut col: usize = 0;
            while col < width
                invariant
                    row < height,
                    col <= width,
                    line@.len() == col,
                    forall|r: usize, c: usize|
                        r < height && c < width ==> #[trigger] f.requires((r, c)),
                    forall|c: usize| c < col ==> #[trigger] f.ensures((row, c), line@[c as int]),
                decreases width - col,
            {
                let v = f(row, col);
                line.push(v);
                col = col + 1;
            }
            rows.push(line);
            row = row + 1;
        }
        Grid(rows)
    }
}

/// The shape of a velocity grid and the velocity range that it spans.
///
/// `width` columns run along the horizontal velocity (`z`), `height` rows
/// along the vertical velocity (`y`). The four bounds are the bit patterns of
/// `f64` velocities.
#[derive(Debug, Clone)]
pub struct GridMeta {
    pub width: usize,
    pub height: usize,
    pub y_vel_lo: u64,
    pub y_vel_hi: u64,
    pub z_vel_lo: u64,
    pub z_vel_hi: u64,
}

impl GridMeta {
    /// The width and height of a grid whose longer side has
    /// `max_width_height` cells.
    ///
    /// `wide` says that the drawing area is wider than tall; `scaled_side` is
    /// the length of the shorter side as the area's aspect ratio gives it,
    /// already rounded. The shorter side keeps at least one cell.
    pub fn uniform_dims(max_width_height: usize, wide: bool, scaled_side: usize) -> (r: (
        usize,
        usize,
    ))
        requires
            max_width_height > 0,
            scaled_side <= max_width_height,
        ensures
            wide ==> r == (max_width_height, if scaled_side < 1 { 1 } else { scaled_side }),
            !wide ==> r == (if scaled_side < 1 { 1 } else { scaled_side }, max_width_height),
            r.0 > 0,
            r.1 > 0,
            (if r.0 < r.1 { r.1 } else { r.0 }) == max_width_height,
    {
        let short = if scaled_side < 1 { 1 } else { scaled_side };
        if wide {
            (max_width_height, short)
        } else {
            (short, max_width_height)
        }
    }
}

} // verus!
