//! The dense rectangular grid layer.
//!
//! A grid stores one node value per cell in row-major order (`x * dim_y +
//! y`).  As a graph layer it exposes up to four axis-aligned in-bounds
//! neighbors per cell, no special points, and the stored value at any
//! in-bounds coordinate.

use crate::coord::GridCoord;
use crate::graph::{GraphLayer, SpecialPoint};
use vstd::prelude::*;

verus! {

/// A dense rectangular array of per-cell node values.
#[derive(Debug)]
pub struct Grid<T> {
    data: Vec<T>,
    dim_x: usize,
    dim_y: usize,
}

/// The in-bounds axis-aligned neighbors of cell (x, y), in the fixed order
/// left, right, below, above, each with the value stored at the neighbor.
pub open spec fn grid_children_at<T: Copy>(g: Grid<T>, x: int, y: int) -> Seq<(GridCoord, T)> {
    let left = if 1 <= x <= g.dim_x_spec() && 0 <= y < g.dim_y_spec() {
        seq![(g.coord_at(x - 1, y), g.spec_get(x - 1, y))]
    } else {
        Seq::empty()
    };
    let right = if -1 <= x < g.dim_x_spec() - 1 && 0 <= y < g.dim_y_spec() {
        seq![(g.coord_at(x + 1, y), g.spec_get(x + 1, y))]
    } else {
        Seq::empty()
    };
    let below = if 0 <= x < g.dim_x_spec() && 1 <= y <= g.dim_y_spec() {
        seq![(g.coord_at(x, y - 1), g.spec_get(x, y - 1))]
    } else {
        Seq::empty()
    };
    let above = if 0 <= x < g.dim_x_spec() && -1 <= y < g.dim_y_spec() - 1 {
        seq![(g.coord_at(x, y + 1), g.spec_get(x, y + 1))]
    } else {
        Seq::empty()
    };
    left + right + below + above
}

impl<T> Grid<T> {
    /// The cell array holds exactly one value per cell, and both
    /// dimensions stay addressable by 32-bit coordinates.
    #[verifier::type_invariant]
    pub closed spec fn inv(self) -> bool {
        &&& self.data@.len() == self.dim_x * self.dim_y
        &&& self.dim_x <= 0x8000_0000
        &&& self.dim_y <= 0x8000_0000
    }

    /// The grid width.
    pub closed spec fn dim_x_spec(self) -> int {
        self.dim_x as int
    }

    /// The grid height.
    pub closed spec fn dim_y_spec(self) -> int {
        self.dim_y as int
    }

    /// The value stored at cell (x, y).
    pub closed spec fn spec_get(self, x: int, y: int) -> T {
        self.data@[x * self.dim_y + y]
    }

    /// Whether (x, y) lies inside the grid.
    pub open spec fn in_bounds(self, x: int, y: int) -> bool {
        0 <= x < self.dim_x_spec() && 0 <= y < self.dim_y_spec()
    }

    /// The packed coordinate of cell (x, y).
    pub open spec fn coord_at(self, x: int, y: int) -> GridCoord {
        crate::coord::spec_coord_xy(x, y)
    }

    /// Builds a grid directly from a filled cell array.
    pub(crate) fn from_raw(data: Vec<T>, dim_x: usize, dim_y: usize) -> (r: Self)
        requires
            data@.len() == dim_x * dim_y,
            dim_x <= 0x8000_0000,
            dim_y <= 0x8000_0000,
        ensures
            r.dim_x_spec() == dim_x,
            r.dim_y_spec() == dim_y,
            forall|x: int, y: int|
                r.in_bounds(x, y) ==> r.spec_get(x, y) == data@[x * (dim_y as int) + y],
    {
        let r = Grid { data, dim_x, dim_y };
        proof {
            assert forall|x: int, y: int| r.in_bounds(x, y) implies r.spec_get(x, y) == r.data@[x
                * (dim_y as int) + y] by {
                lemma_row_major_index(dim_x as int, dim_y as int, x, y);
            }
        }
        r
    }
}

impl<T: Copy> Grid<T> {
    /// Creates a grid with every cell set to `val`.
    pub fn from_val(size: (u32, u32), val: T) -> (r: Self)
        requires
            size.0 * size.1 <= usize::MAX,
            size.0 <= 0x8000_0000,
            size.1 <= 0x8000_0000,
        ensures
            r.dim_x_spec() == size.0,
            r.dim_y_spec() == size.1,
            forall|x: int, y: int| r.in_bounds(x, y) ==> r.spec_get(x, y) == val,
    {
        let dim_x = size.0 as usize;
        let dim_y = size.1 as usize;
        let n = dim_x * dim_y;
        let mut data: Vec<T> = Vec::new();
        let mut i: usize = 0;
        while i < n
            invariant
                i <= n,
                data@.len() == i,
                forall|k: int| 0 <= k < i ==> data@[k] == val,
            decreases n - i,
        {
            data.push(val);
            i = i + 1;
        }
        let r = Grid { data, dim_x, dim_y };
        proof {
            assert forall|x: int, y: int| r.in_bounds(x, y) implies r.spec_get(x, y) == val by {
                lemma_row_major_index(dim_x as int, dim_y as int, x, y);
            }
        }
        r
    }

    /// Creates a grid by evaluating `ctor` at every cell.
    pub fn from_fn<F: Fn(i32, i32) -> T>(size: (u32, u32), ctor: F) -> (r: Self)
        requires
            size.0 * size.1 <= usize::MAX,
            size.0 < 0x8000_0000,
            size.1 < 0x8000_0000,
            forall|x: i32, y: i32|
                0 <= x < size.0 && 0 <= y < size.1 ==> #[trigger] ctor.requires((x, y)),
        ensures
            r.dim_x_spec() == size.0,
            r.dim_y_spec() == size.1,
            forall|x: int, y: int|
                r.in_bounds(x, y) ==> ctor.ensures(
                    (x as i32, y as i32),
                    #[trigger] r.spec_get(x, y),
                ),
    {
        let dim_x = size.0 as usize;
        let dim_y = size.1 as usize;
        let mut data: Vec<T> = Vec::new();
        let mut x: usize = 0;
        while x < dim_x
            invariant
                x <= dim_x,
                dim_x == size.0,
                dim_y == size.1,
                size.0 * size.1 <= usize::MAX,
                size.0 < 0x8000_0000,
                size.1 < 0x8000_0000,
                forall|a: i32, b: i32|
                    0 <= a < size.0 && 0 <= b < size.1 ==> #[trigger] ctor.requires((a, b)),
                data@.len() == x * dim_y,
                forall|a: int, b: int|
                    0 <= a < x && 0 <= b < dim_y ==> ctor.ensures(
                        (a as i32, b as i32),
                        #[trigger] data@[a * dim_y + b],
                    ),
            decreases dim_x - x,
        {
            let mut y: usize = 0;
            while y < dim_y
                invariant
                    y <= dim_y,
                    x < dim_x,
                    dim_x == size.0,
                    dim_y == size.1,
                    size.0 * size.1 <= usize::MAX,
                    size.0 < 0x8000_0000,
                    size.1 < 0x8000_0000,
                    forall|a: i32, b: i32|
                        0 <= a < size.0 && 0 <= b < size.1 ==> #[trigger] ctor.requires((a, b)),
                    data@.len() == x * dim_y + y,
                    forall|a: int, b: int|
                        0 <= a < x && 0 <= b < dim_y ==> ctor.ensures(
                            (a as i32, b as i32),
                            #[trigger] data@[a * dim_y + b],
                        ),
                    forall|b: int|
                        0 <= b < y ==> ctor.ensures(
                            (x as i32, b as i32),
                            #[trigger] data@[x * dim_y + b],
                        ),
                decreases dim_y - y,
            {
                proof {
                    lemma_row_major_fits(dim_x as int, dim_y as int, x as int, y as int);
                }
                let v = ctor(x as i32, y as i32);
                data.push(v);
                proof {
                    assert forall|a: int, b: int|
                        0 <= a < x && 0 <= b < dim_y implies ctor.ensures(
                        (a as i32, b as i32),
                        #[trigger] data@[a * dim_y + b],
                    ) by {
                        lemma_row_major_le(a, b, x as int, y as int, dim_y as int);
                    }
                }
                y = y + 1;
            }
            proof {
                assert((x + 1) * dim_y == x * dim_y + dim_y) by (nonlinear_arith);
            }
            x = x + 1;
        }
        proof {
            lemma_row_major_fits(dim_x as int, dim_y as int, dim_x as int, 0);
        }
        let r = Grid { data, dim_x, dim_y };
        proof {
            assert forall|a: int, b: int| r.in_bounds(a, b) implies ctor.ensures(
                (a as i32, b as i32),
                #[trigger] r.spec_get(a, b),
            ) by {
                lemma_row_major_index(dim_x as int, dim_y as int, a, b);
            }
        }
        r
    }

    /// The grid dimensions as (width, height).  Dimensions always fit the
    /// 32-bit coordinate space, and the cell count fits `usize`.
    pub fn size(&self) -> (r: (usize, usize))
        ensures
            r.0 == self.dim_x_spec(),
            r.1 == self.dim_y_spec(),
            r.0 <= 0x8000_0000,
            r.1 <= 0x8000_0000,
            r.0 * r.1 <= usize::MAX,
    {
        proof {
            use_type_invariant(self);
        }
        let total = self.data.len();
        assert(total == self.dim_x_spec() * self.dim_y_spec());
        (self.size_x(), self.size_y())
    }

    /// The grid width.
    pub fn size_x(&self) -> (r: usize)
        ensures
            r == self.dim_x_spec(),
    {
        self.dim_x
    }

    /// The grid height.
    pub fn size_y(&self) -> (r: usize)
        ensures
            r == self.dim_y_spec(),
    {
        self.dim_y
    }

    /// The value stored at (x, y); callers must stay in bounds.
    pub fn get(&self, x: i32, y: i32) -> (r: &T)
        requires
            self.in_bounds(x as int, y as int),
        ensures
            *r == self.spec_get(x as int, y as int),
    {
        proof {
            use_type_invariant(self);
            lemma_row_major_index(self.dim_x as int, self.dim_y as int, x as int, y as int);
        }
        let idx = self.get_dim(x as usize, y as usize);
        &self.data[idx]
    }

    /// The row-major index of cell (x, y).
    fn get_dim(&self, x: usize, y: usize) -> (r: usize)
        requires
            self.in_bounds(x as int, y as int),
        ensures
            r == x * self.dim_y_spec() + y,
            r < self.dim_x_spec() * self.dim_y_spec(),
    {
        proof {
            use_type_invariant(self);
            lemma_row_major_index(self.dim_x as int, self.dim_y as int, x as int, y as int);
        }
        let total = self.data.len();
        assert(x * self.dim_y_spec() + y < total);
        x * self.dim_y + y
    }
}

/// For in-bounds (x, y), the row-major index stays below the cell count.
proof fn lemma_row_major_index(dim_x: int, dim_y: int, x: int, y: int)
    requires
        0 <= x < dim_x,
        0 <= y < dim_y,
    ensures
        0 <= x * dim_y + y < dim_x * dim_y,
{
    assert(x * dim_y + y < dim_x * dim_y) by (nonlinear_arith)
        requires
            0 <= x < dim_x,
            0 <= y < dim_y,
    ;
}

/// Cells filled before (x, y) in row-major order number `x * dim_y + y`,
/// which never exceeds the cell count.
proof fn lemma_row_major_fits(dim_x: int, dim_y: int, x: int, y: int)
    requires
        0 <= x <= dim_x,
        0 <= y <= dim_y,
        x < dim_x || y == 0,
    ensures
        x * dim_y + y <= dim_x * dim_y,
{
    assert(x * dim_y + y <= dim_x * dim_y) by (nonlinear_arith)
        requires
            0 <= x <= dim_x,
            0 <= y <= dim_y,
            x < dim_x || y == 0,
    ;
}

/// Earlier cells keep a strictly smaller row-major index.
proof fn lemma_row_major_le(a: int, b: int, x: int, y: int, dim_y: int)
    requires
        0 <= a < x,
        0 <= b < dim_y,
    ensures
        a * dim_y + b < x * dim_y + y || a * dim_y + b < x * dim_y,
{
    assert(a * dim_y + b < x * dim_y) by (nonlinear_arith)
        requires
            0 <= a < x,
            0 <= b < dim_y,
    ;
}

impl<T: Copy> GraphLayer<T> for Grid<T> {
    /// A plain grid carries no special tags by itself.
    open spec fn spec_special_points(&self) -> Seq<(SpecialPoint, GridCoord)> {
        Seq::empty()
    }

    open spec fn spec_children(&self, coord: GridCoord) -> Seq<(GridCoord, T)> {
        grid_children_at(*self, coord.x(), coord.y())
    }

    open spec fn spec_node(&self, coord: GridCoord) -> Option<T> {
        if self.in_bounds(coord.x(), coord.y()) {
            Some(self.spec_get(coord.x(), coord.y()))
        } else {
            None
        }
    }

    fn get_special_pooints(&self) -> (r: Vec<(SpecialPoint, GridCoord)>) {
        let r: Vec<(SpecialPoint, GridCoord)> = Vec::new();
        proof {
            assert(r@ =~= self.spec_special_points());
        }
        r
    }

    /// Up to four axis-aligned neighbors that lie within the grid bounds:
    /// no diagonals, no wraparound.
    fn get_children(&self, coord: GridCoord) -> (r: Vec<(GridCoord, T)>) {
        proof {
            use_type_invariant(self);
        }
        let (x, y) = coord.to_xy();
        let xu = x as usize;
        let yu = y as usize;
        let (size_x, size_y) = self.size();
        let mut out: Vec<(GridCoord, T)> = Vec::new();
        if xu >= 1 && xu - 1 < size_x && yu < size_y {
            out.push((GridCoord::from_xy(x - 1, y), *self.get(x - 1, y)));
        }
        if xu + 1 < size_x && yu < size_y {
            out.push((GridCoord::from_xy(x + 1, y), *self.get(x + 1, y)));
        }
        if xu < size_x && yu >= 1 && yu - 1 < size_y {
            out.push((GridCoord::from_xy(x, y - 1), *self.get(x, y - 1)));
        }
        if xu < size_x && yu + 1 < size_y {
            out.push((GridCoord::from_xy(x, y + 1), *self.get(x, y + 1)));
        }
        proof {
            assert(out@ =~= grid_children_at(*self, coord.x(), coord.y()));
        }
        out
    }

    fn get_node(&self, coord: GridCoord) -> (r: Option<T>) {
        let (x, y) = coord.to_xy();
        if (x as usize) < self.size_x() && (y as usize) < self.size_y() {
            Some(*self.get(x, y))
        } else {
            None
        }
    }
}

/// Neighbor counts by cell class: an interior cell has exactly 4 in-bounds
/// axis-aligned neighbors, a corner cell exactly 2, and an edge cell that
/// is not a corner exactly 3.
pub proof fn lemma_grid_neighbor_count<T: Copy>(g: Grid<T>, x: int, y: int)
    requires
        g.in_bounds(x, y),
    ensures
        1 <= x < g.dim_x_spec() - 1 && 1 <= y < g.dim_y_spec() - 1 ==> grid_children_at(
            g,
            x,
            y,
        ).len() == 4,
        (x == 0 || x == g.dim_x_spec() - 1) && (y == 0 || y == g.dim_y_spec() - 1)
            ==> grid_children_at(g, x, y).len() == (if g.dim_x_spec() == 1 {
            0int
        } else {
            1int
        }) + (if g.dim_y_spec() == 1 {
            0int
        } else {
            1int
        }),
        (x == 0 || x == g.dim_x_spec() - 1) && 1 <= y < g.dim_y_spec() - 1 && g.dim_x_spec() > 1
            ==> grid_children_at(g, x, y).len() == 3,
        1 <= x < g.dim_x_spec() - 1 && (y == 0 || y == g.dim_y_spec() - 1) && g.dim_y_spec() > 1
            ==> grid_children_at(g, x, y).len() == 3,
{
}

} // verus!
