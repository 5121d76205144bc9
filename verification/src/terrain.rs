//! Terrain node values and the terrain grid.
//!
//! Heights are integer units (the height-map importer's raw values); only
//! ground nodes carry a height usable for interpolation, every other node
//! kind is an opaque identifier to the search.

use crate::grid::Grid;
use crate::importer::{terrain_from_pgm, ParseError};
use vstd::prelude::*;

verus! {

/// The per-cell payload of the terrain and its overlays.
#[derive(Clone, Copy, PartialEq, Eq, Structural, Debug)]
pub enum TerrainPoint {
    /// Plain ground with its height in integer height units.
    Ground { height: u32 },
    /// A lift's boarding point, carrying the lift's fixed up-cost.
    LiftBottom { up_cost: u32 },
    /// A lift's exit point, carrying the lift's fixed up-cost.
    LiftTop { up_cost: u32 },
    /// A terminal exit point.
    ParkingLot,
    /// A trail waypoint.
    Trail,
}

/// Ground at the given height (clipped into `u32`).
pub open spec fn spec_ground(h: int) -> TerrainPoint {
    TerrainPoint::Ground { height: h as u32 }
}

/// The terrain: a dense grid of terrain points.
pub struct Terrain {
    pub grid: Grid<TerrainPoint>,
}

impl Terrain {
    /// Flat terrain of the given size with a constant ground height.
    pub fn basic(size_x: u32, size_y: u32) -> (r: Self)
        requires
            size_x * size_y <= usize::MAX,
            size_x <= 0x8000_0000,
            size_y <= 0x8000_0000,
        ensures
            r.grid.dim_x_spec() == size_x,
            r.grid.dim_y_spec() == size_y,
            forall|x: int, y: int|
                r.grid.in_bounds(x, y) ==> r.grid.spec_get(x, y) == spec_ground(2),
    {
        Terrain { grid: Grid::from_val((size_x, size_y), TerrainPoint::Ground { height: 2 }) }
    }

    /// Terrain rising one height unit per step in x.
    pub fn slope(size_x: u32, size_y: u32) -> (r: Self)
        requires
            size_x * size_y <= usize::MAX,
            size_x < 0x8000_0000,
            size_y < 0x8000_0000,
        ensures
            r.grid.dim_x_spec() == size_x,
            r.grid.dim_y_spec() == size_y,
            forall|x: int, y: int|
                r.grid.in_bounds(x, y) ==> r.grid.spec_get(x, y) == spec_ground(x + 1),
    {
        let dim_x = size_x as usize;
        let dim_y = size_y as usize;
        let mut data: Vec<TerrainPoint> = Vec::new();
        let mut x: usize = 0;
        while x < dim_x
            invariant
                x <= dim_x,
                dim_x == size_x,
                dim_y == size_y,
                size_x * size_y <= usize::MAX,
                size_x < 0x8000_0000,
                size_y < 0x8000_0000,
                data@.len() == x * dim_y,
                forall|a: int, b: int|
                    0 <= a < x && 0 <= b < dim_y ==> #[trigger] data@[a * dim_y + b]
                        == spec_ground(a + 1),
            decreases dim_x - x,
        {
            let mut y: usize = 0;
            while y < dim_y
                invariant
                    y <= dim_y,
                    x < dim_x,
                    dim_x == size_x,
                    dim_y == size_y,
                    size_x * size_y <= usize::MAX,
                    size_x < 0x8000_0000,
                    size_y < 0x8000_0000,
                    data@.len() == x * dim_y + y,
                    forall|a: int, b: int|
                        0 <= a < x && 0 <= b < dim_y ==> #[trigger] data@[a * dim_y + b]
                            == spec_ground(a + 1),
                    forall|b: int|
                        0 <= b < y ==> #[trigger] data@[x * dim_y + b] == spec_ground(
                            x as int + 1,
                        ),
                decreases dim_y - y,
            {
                proof {
                    lemma_cell_counting(x as int, y as int, dim_x as int, dim_y as int);
                }
                data.push(TerrainPoint::Ground { height: (x as u32) + 1 });
                proof {
                    assert forall|a: int, b: int|
                        0 <= a < x && 0 <= b < dim_y implies #[trigger] data@[a * dim_y + b]
                        == spec_ground(a + 1) by {
                        lemma_cell_order(a, b, x as int, dim_y as int);
                    }
                }
                y = y + 1;
            }
            proof {
                assert((x + 1) * dim_y == x * dim_y + dim_y) by (nonlinear_arith);
            }
            x = x + 1;
        }
        let grid = Grid::from_raw(data, dim_x, dim_y);
        Terrain { grid }
    }

    /// Decodes a textual height map into ground terrain, one grid cell per
    /// height value.
    pub fn from_pgm(string: String) -> (r: Result<Self, ParseError>)
        ensures
            match r {
                Ok(t) => {
                    &&& crate::importer::spec_parse_pgm(string@) matches Ok(g)
                    &&& t.grid.dim_x_spec() == g.0
                    &&& t.grid.dim_y_spec() == g.1
                    &&& forall|x: int, y: int|
                        t.grid.in_bounds(x, y) ==> t.grid.spec_get(x, y) == spec_ground(
                            g.2[x * g.1 + y] as int,
                        )
                },
                Err(e) => crate::importer::spec_parse_pgm(string@) == Err::<
                    (int, int, Seq<u32>),
                    crate::importer::PgmError,
                >(e@),
            },
    {
        match terrain_from_pgm(string) {
            Ok(g) => {
                let grid = convert_heights(&g);
                Ok(Terrain { grid })
            },
            Err(e) => Err(e),
        }
    }
}

/// Copies a height grid into a ground-terrain grid cell by cell.
fn convert_heights(g: &Grid<u32>) -> (r: Grid<TerrainPoint>)
    ensures
        r.dim_x_spec() == g.dim_x_spec(),
        r.dim_y_spec() == g.dim_y_spec(),
        forall|x: int, y: int|
            r.in_bounds(x, y) ==> r.spec_get(x, y) == spec_ground(g.spec_get(x, y) as int),
{
    let (dim_x, dim_y) = g.size();
    let mut data: Vec<TerrainPoint> = Vec::new();
    let mut x: usize = 0;
    while x < dim_x
        invariant
            x <= dim_x,
            dim_x == g.dim_x_spec(),
            dim_y == g.dim_y_spec(),
            dim_x * dim_y <= usize::MAX,
            dim_x <= 0x8000_0000,
            dim_y <= 0x8000_0000,
            data@.len() == x * dim_y,
            forall|a: int, b: int|
                0 <= a < x && 0 <= b < dim_y ==> #[trigger] data@[a * dim_y + b] == spec_ground(
                    g.spec_get(a, b) as int,
                ),
        decreases dim_x - x,
    {
        let mut y: usize = 0;
        while y < dim_y
            invariant
                y <= dim_y,
                x < dim_x,
                dim_x == g.dim_x_spec(),
                dim_y == g.dim_y_spec(),
                dim_x * dim_y <= usize::MAX,
                dim_x <= 0x8000_0000,
                dim_y <= 0x8000_0000,
                data@.len() == x * dim_y + y,
                forall|a: int, b: int|
                    0 <= a < x && 0 <= b < dim_y ==> #[trigger] data@[a * dim_y + b]
                        == spec_ground(g.spec_get(a, b) as int),
                forall|b: int|
                    0 <= b < y ==> #[trigger] data@[x * dim_y + b] == spec_ground(
                        g.spec_get(x as int, b) as int,
                    ),
            decreases dim_y - y,
        {
            proof {
                lemma_cell_counting(x as int, y as int, dim_x as int, dim_y as int);
            }
            let h = *g.get(x as i32, y as i32);
            data.push(TerrainPoint::Ground { height: h });
            proof {
                assert forall|a: int, b: int|
                    0 <= a < x && 0 <= b < dim_y implies #[trigger] data@[a * dim_y + b]
                    == spec_ground(g.spec_get(a, b) as int) by {
                    lemma_cell_order(a, b, x as int, dim_y as int);
                }
            }
            y = y + 1;
        }
        proof {
            assert((x + 1) * dim_y == x * dim_y + dim_y) by (nonlinear_arith);
        }
        x = x + 1;
    }
    Grid::from_raw(data, dim_x, dim_y)
}

/// The cell being filled stays within the total count.
proof fn lemma_cell_counting(x: int, y: int, dim_x: int, dim_y: int)
    requires
        0 <= x < dim_x,
        0 <= y < dim_y,
    ensures
        0 <= x * dim_y + y < dim_x * dim_y,
{
    assert(0 <= x * dim_y + y < dim_x * dim_y) by (nonlinear_arith)
        requires
            0 <= x < dim_x,
            0 <= y < dim_y,
    ;
}

/// Cells of earlier rows sit strictly below the current write position.
proof fn lemma_cell_order(a: int, b: int, x: int, dim_y: int)
    requires
        0 <= a < x,
        0 <= b < dim_y,
    ensures
        a * dim_y + b < x * dim_y,
{
    assert(a * dim_y + b < x * dim_y) by (nonlinear_arith)
        requires
            0 <= a < x,
            0 <= b < dim_y,
    ;
}

} // verus!
