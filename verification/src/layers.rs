//! Sparse overlay layers: lifts and parking lots.
//!
//! A lift is a single directed edge from its bottom to its top with a
//! fixed traversal cost; a parking lot is one terminal coordinate with no
//! outgoing edges.

use crate::coord::GridCoord;
use crate::graph::{GraphLayer, SpecialPoint};
use crate::grid::Grid;
use crate::terrain::TerrainPoint;
use crate::trails::TrailCollection;
use vstd::prelude::*;

verus! {

/// A one-directional, fixed-cost shortcut edge from a bottom coordinate
/// to a top coordinate.
pub struct LiftLayer {
    top: GridCoord,
    bottom: GridCoord,
    up_cost: u32,
}

impl LiftLayer {
    /// The boarding coordinate.
    pub closed spec fn bottom(self) -> GridCoord {
        self.bottom
    }

    /// The exit coordinate.
    pub closed spec fn top(self) -> GridCoord {
        self.top
    }

    /// The fixed traversal cost.
    pub closed spec fn up_cost(self) -> u32 {
        self.up_cost
    }

    /// Builds a lift.  The cost is kept positive so that no edge of the
    /// composed graph is free: the search's predecessor chains rely on
    /// strictly growing costs.
    pub fn new(bottom: GridCoord, top: GridCoord, up_cost: u32) -> (r: Self)
        requires
            up_cost >= 1,
        ensures
            r.bottom() == bottom,
            r.top() == top,
            r.up_cost() == up_cost,
    {
        LiftLayer { top, bottom, up_cost }
    }
}

impl GraphLayer<TerrainPoint> for LiftLayer {
    /// Both endpoints, tagged with their roles.
    open spec fn spec_special_points(&self) -> Seq<(SpecialPoint, GridCoord)> {
        seq![(SpecialPoint::LiftTop, self.top()), (SpecialPoint::LiftBottom, self.bottom())]
    }

    /// One edge, from the bottom to the top.
    open spec fn spec_children(&self, coord: GridCoord) -> Seq<(GridCoord, TerrainPoint)> {
        if coord == self.bottom() {
            seq![(self.top(), TerrainPoint::LiftTop { up_cost: self.up_cost() })]
        } else {
            Seq::empty()
        }
    }

    open spec fn spec_node(&self, coord: GridCoord) -> Option<TerrainPoint> {
        if coord == self.bottom() {
            Some(TerrainPoint::LiftBottom { up_cost: self.up_cost() })
        } else if coord == self.top() {
            Some(TerrainPoint::LiftTop { up_cost: self.up_cost() })
        } else {
            None
        }
    }

    fn get_special_pooints(&self) -> (r: Vec<(SpecialPoint, GridCoord)>) {
        let mut r: Vec<(SpecialPoint, GridCoord)> = Vec::new();
        r.push((SpecialPoint::LiftTop, self.top));
        r.push((SpecialPoint::LiftBottom, self.bottom));
        proof {
            assert(r@ =~= self.spec_special_points());
        }
        r
    }

    fn get_children(&self, coord: GridCoord) -> (r: Vec<(GridCoord, TerrainPoint)>) {
        let mut r: Vec<(GridCoord, TerrainPoint)> = Vec::new();
        if coord == self.bottom {
            r.push((self.top, TerrainPoint::LiftTop { up_cost: self.up_cost }));
        }
        proof {
            assert(r@ =~= self.spec_children(coord));
        }
        r
    }

    fn get_node(&self, coord: GridCoord) -> (r: Option<TerrainPoint>) {
        if coord != self.bottom && coord != self.top {
            None
        } else if coord == self.bottom {
            Some(TerrainPoint::LiftBottom { up_cost: self.up_cost })
        } else {
            Some(TerrainPoint::LiftTop { up_cost: self.up_cost })
        }
    }
}

/// A single terminal coordinate where agents leave the terrain; it has no
/// outgoing edges.
pub struct ParkingLotLayer {
    position: GridCoord,
}

impl ParkingLotLayer {
    /// The exit coordinate.
    pub closed spec fn position(self) -> GridCoord {
        self.position
    }

    /// Builds a parking lot at `position`.
    pub fn new(position: GridCoord) -> (r: Self)
        ensures
            r.position() == position,
    {
        ParkingLotLayer { position }
    }
}

impl GraphLayer<TerrainPoint> for ParkingLotLayer {
    open spec fn spec_special_points(&self) -> Seq<(SpecialPoint, GridCoord)> {
        seq![(SpecialPoint::ParkingLot, self.position())]
    }

    /// A parking lot contributes no edges.
    open spec fn spec_children(&self, coord: GridCoord) -> Seq<(GridCoord, TerrainPoint)> {
        Seq::empty()
    }

    open spec fn spec_node(&self, coord: GridCoord) -> Option<TerrainPoint> {
        if coord == self.position() {
            Some(TerrainPoint::ParkingLot)
        } else {
            None
        }
    }

    fn get_special_pooints(&self) -> (r: Vec<(SpecialPoint, GridCoord)>) {
        let mut r: Vec<(SpecialPoint, GridCoord)> = Vec::new();
        r.push((SpecialPoint::ParkingLot, self.position));
        proof {
            assert(r@ =~= self.spec_special_points());
        }
        r
    }

    fn get_children(&self, _coord: GridCoord) -> (r: Vec<(GridCoord, TerrainPoint)>) {
        let r: Vec<(GridCoord, TerrainPoint)> = Vec::new();
        proof {
            assert(r@ =~= Seq::<(GridCoord, TerrainPoint)>::empty());
        }
        r
    }

    fn get_node(&self, coord: GridCoord) -> (r: Option<TerrainPoint>) {
        if coord != self.position {
            None
        } else {
            Some(TerrainPoint::ParkingLot)
        }
    }
}


/// One terrain layer of any kind, so that heterogeneous layers can stand
/// together in one composed graph view.
pub enum TerrainLayer {
    Grid(Grid<TerrainPoint>),
    Lift(LiftLayer),
    Parking(ParkingLotLayer),
    Trails(TrailCollection),
}

impl GraphLayer<TerrainPoint> for TerrainLayer {
    open spec fn spec_special_points(&self) -> Seq<(SpecialPoint, GridCoord)> {
        match self {
            TerrainLayer::Grid(g) => g.spec_special_points(),
            TerrainLayer::Lift(l) => l.spec_special_points(),
            TerrainLayer::Parking(p) => p.spec_special_points(),
            TerrainLayer::Trails(t) => t.spec_special_points(),
        }
    }

    open spec fn spec_children(&self, coord: GridCoord) -> Seq<(GridCoord, TerrainPoint)> {
        match self {
            TerrainLayer::Grid(g) => g.spec_children(coord),
            TerrainLayer::Lift(l) => l.spec_children(coord),
            TerrainLayer::Parking(p) => p.spec_children(coord),
            TerrainLayer::Trails(t) => t.spec_children(coord),
        }
    }

    open spec fn spec_node(&self, coord: GridCoord) -> Option<TerrainPoint> {
        match self {
            TerrainLayer::Grid(g) => g.spec_node(coord),
            TerrainLayer::Lift(l) => l.spec_node(coord),
            TerrainLayer::Parking(p) => p.spec_node(coord),
            TerrainLayer::Trails(t) => t.spec_node(coord),
        }
    }

    fn get_special_pooints(&self) -> (r: Vec<(SpecialPoint, GridCoord)>) {
        match self {
            TerrainLayer::Grid(g) => g.get_special_pooints(),
            TerrainLayer::Lift(l) => l.get_special_pooints(),
            TerrainLayer::Parking(p) => p.get_special_pooints(),
            TerrainLayer::Trails(t) => t.get_special_pooints(),
        }
    }

    fn get_children(&self, coord: GridCoord) -> (r: Vec<(GridCoord, TerrainPoint)>) {
        match self {
            TerrainLayer::Grid(g) => g.get_children(coord),
            TerrainLayer::Lift(l) => l.get_children(coord),
            TerrainLayer::Parking(p) => p.get_children(coord),
            TerrainLayer::Trails(t) => t.get_children(coord),
        }
    }

    fn get_node(&self, coord: GridCoord) -> (r: Option<TerrainPoint>) {
        match self {
            TerrainLayer::Grid(g) => g.get_node(coord),
            TerrainLayer::Lift(l) => l.get_node(coord),
            TerrainLayer::Parking(p) => p.get_node(coord),
            TerrainLayer::Trails(t) => t.get_node(coord),
        }
    }
}

} // verus!
