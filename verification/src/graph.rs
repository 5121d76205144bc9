//! The graph-layer capability and the composed graph view.
//!
//! A graph layer is one source of nodes and edges over the shared
//! coordinate space: the dense grid, a lift, a parking lot or the trail
//! network.  A graph view is an ephemeral, non-owning composition of layer
//! references queried as one logical graph: children and node values are
//! the concatenation of every layer's answers, and special points are
//! tagged with the index of the layer they came from, which is how a lift's
//! bottom and top are paired when several lifts coexist.

use crate::coord::GridCoord;
use crate::cost::Cost;
use vstd::prelude::*;

verus! {

/// The semantic role of a tagged coordinate, used by the planner to
/// enumerate candidate macro-decisions.
#[derive(PartialEq, Eq, Structural, Clone, Copy, Debug)]
pub enum SpecialPoint {
    LiftBottom,
    LiftTop,
    /// Where agents leave the terrain.
    ParkingLot,
    Trail,
}

/// One source of nodes and edges over the shared coordinate space.
///
/// `T` is the per-node payload this layer reports.  The three spec
/// functions are the layer's mathematical model; the execution functions
/// return exactly what the model says.
pub trait GraphLayer<T>: Sized {
    /// The special points this layer contributes.
    spec fn spec_special_points(&self) -> Seq<(SpecialPoint, GridCoord)>;

    /// The outgoing edges of `coord` contributed by this layer, each with
    /// the node value the edge arrives at.
    spec fn spec_children(&self, coord: GridCoord) -> Seq<(GridCoord, T)>;

    /// The node value this layer stores at `coord`, if any.
    spec fn spec_node(&self, coord: GridCoord) -> Option<T>;

    /// Enumerates the special points of this layer with their tags.
    fn get_special_pooints(&self) -> (r: Vec<(SpecialPoint, GridCoord)>)
        ensures
            r@ == self.spec_special_points(),
    ;

    /// Enumerates the outgoing edges of `coord` in this layer.
    fn get_children(&self, coord: GridCoord) -> (r: Vec<(GridCoord, T)>)
        ensures
            r@ == self.spec_children(coord),
    ;

    /// Fetches the node value at `coord`, if this layer has one.
    fn get_node(&self, coord: GridCoord) -> (r: Option<T>)
        ensures
            r == self.spec_node(coord),
    ;
}

/// Computes the weight of traversing an edge from the node value `start`
/// to the node value `end`; may read agent state, never mutate it.
pub trait WeightGetter<PointType, GraphWeight: Cost> {
    /// The mathematical weight function.
    spec fn spec_weight(&self, start: PointType, end: PointType) -> GraphWeight;

    /// Computes the weight of one edge.
    fn get_weight(&self, start: &PointType, end: &PointType) -> (r: GraphWeight)
        ensures
            r == self.spec_weight(*start, *end),
    ;
}

/// An ephemeral composition of borrowed graph layers, queried as one graph.
pub struct GraphView<'a, L> {
    layers: Vec<&'a L>,
}

/// The children of `coord` over the layers `layers[from..]`, concatenated
/// in layer order.
pub open spec fn view_children_from<T, L: GraphLayer<T>>(
    layers: Seq<&L>,
    coord: GridCoord,
    from: int,
) -> Seq<(GridCoord, T)>
    decreases layers.len() - from,
{
    if from < 0 || from >= layers.len() {
        Seq::empty()
    } else {
        layers[from].spec_children(coord) + view_children_from(layers, coord, from + 1)
    }
}

/// The special points over the layers `layers[from..]`, each annotated
/// with the index of its originating layer.
pub open spec fn view_special_points_from<T, L: GraphLayer<T>>(
    layers: Seq<&L>,
    from: int,
) -> Seq<(SpecialPoint, GridCoord, usize)>
    decreases layers.len() - from,
{
    if from < 0 || from >= layers.len() {
        Seq::empty()
    } else {
        layers[from].spec_special_points().map_values(
            |p: (SpecialPoint, GridCoord)| (p.0, p.1, from as usize),
        ) + view_special_points_from(layers, from + 1)
    }
}

/// The node values reported at `coord` by the layers `layers[from..]`.
pub open spec fn view_nodes_from<T, L: GraphLayer<T>>(
    layers: Seq<&L>,
    coord: GridCoord,
    from: int,
) -> Seq<T>
    decreases layers.len() - from,
{
    if from < 0 || from >= layers.len() {
        Seq::empty()
    } else {
        match layers[from].spec_node(coord) {
            Some(t) => seq![t] + view_nodes_from(layers, coord, from + 1),
            None => view_nodes_from(layers, coord, from + 1),
        }
    }
}

impl<'a, L> GraphView<'a, L> {
    /// The composed layer list.
    pub closed spec fn layers_spec(&self) -> Seq<&'a L> {
        self.layers@
    }

    /// Builds a view from an ordered list of layer references.
    pub fn from(layers: Vec<&'a L>) -> (r: Self)
        ensures
            r.layers_spec() == layers@,
    {
        GraphView { layers }
    }

    /// The children of `coord` over the whole view.
    pub open spec fn spec_children<T>(&self, coord: GridCoord) -> Seq<(GridCoord, T)>
        where L: GraphLayer<T>
    {
        view_children_from(self.layers_spec(), coord, 0)
    }

    /// The annotated special points of the whole view.
    pub open spec fn spec_special_points<T>(&self) -> Seq<(SpecialPoint, GridCoord, usize)>
        where L: GraphLayer<T>
    {
        view_special_points_from::<T, L>(self.layers_spec(), 0)
    }

    /// The node values stored at `coord` over the whole view.
    pub open spec fn spec_nodes<T>(&self, coord: GridCoord) -> Seq<T>
        where L: GraphLayer<T>
    {
        view_nodes_from(self.layers_spec(), coord, 0)
    }

    /// Concatenates every layer's children at `coord`, in layer order.
    /// Duplicate coordinates across layers are kept: the search tolerates
    /// redundant edges because it keeps only the best discovered cost.
    pub fn get_children<T>(&self, coord: GridCoord) -> (r: Vec<(GridCoord, T)>)
        where L: GraphLayer<T>
        ensures
            r@ == self.spec_children(coord),
    {
        let mut out: Vec<(GridCoord, T)> = Vec::new();
        let n = self.layers.len();
        let mut i: usize = 0;
        while i < n
            invariant
                i <= n,
                n == self.layers@.len(),
                out@ + view_children_from(self.layers@, coord, i as int)
                    =~= view_children_from(self.layers@, coord, 0),
            decreases n - i,
        {
            let mut part = self.layers[i].get_children(coord);
            out.append(&mut part);
            i = i + 1;
        }
        out
    }

    /// Every layer's special points, each annotated with the index of its
    /// originating layer in the composed list.
    pub fn special_points<T>(&self) -> (r: Vec<(SpecialPoint, GridCoord, usize)>)
        where L: GraphLayer<T>
        ensures
            r@ == self.spec_special_points::<T>(),
    {
        let mut out: Vec<(SpecialPoint, GridCoord, usize)> = Vec::new();
        let n = self.layers.len();
        let mut i: usize = 0;
        while i < n
            invariant
                i <= n,
                n == self.layers@.len(),
                out@ + view_special_points_from::<T, L>(self.layers@, i as int)
                    =~= view_special_points_from::<T, L>(self.layers@, 0),
            decreases n - i,
        {
            let part = self.layers[i].get_special_pooints();
            let m = part.len();
            let mut j: usize = 0;
            while j < m
                invariant
                    j <= m,
                    m == part@.len(),
                    i < n,
                    n == self.layers@.len(),
                    part@ == self.layers@[i as int].spec_special_points(),
                    out@ + part@.skip(j as int).map_values(
                        |p: (SpecialPoint, GridCoord)| (p.0, p.1, i),
                    ) + view_special_points_from::<T, L>(self.layers@, i + 1)
                        =~= view_special_points_from::<T, L>(self.layers@, 0),
                decreases m - j,
            {
                let entry = part[j];
                proof {
                    assert(part@.skip(j as int).map_values(
                        |p: (SpecialPoint, GridCoord)| (p.0, p.1, i),
                    ) =~= seq![(entry.0, entry.1, i)] + part@.skip(j as int + 1).map_values(
                        |p: (SpecialPoint, GridCoord)| (p.0, p.1, i),
                    ));
                }
                out.push((entry.0, entry.1, i));
                j = j + 1;
            }
            proof {
                assert(part@.skip(m as int).map_values(
                    |p: (SpecialPoint, GridCoord)| (p.0, p.1, i),
                ) =~= Seq::<(SpecialPoint, GridCoord, usize)>::empty());
            }
            i = i + 1;
        }
        out
    }

    /// The node values reported by every layer that has one at `coord`:
    /// zero, one, or many, since overlapping layers may each define a node
    /// at the same coordinate.
    pub fn get_node<T>(&self, coord: GridCoord) -> (r: Vec<T>)
        where L: GraphLayer<T>
        ensures
            r@ == self.spec_nodes(coord),
    {
        let mut out: Vec<T> = Vec::new();
        let n = self.layers.len();
        let mut i: usize = 0;
        while i < n
            invariant
                i <= n,
                n == self.layers@.len(),
                out@ + view_nodes_from(self.layers@, coord, i as int)
                    =~= view_nodes_from(self.layers@, coord, 0),
            decreases n - i,
        {
            match self.layers[i].get_node(coord) {
                Some(t) => {
                    out.push(t);
                },
                None => {},
            }
            i = i + 1;
        }
        out
    }
}

} // verus!
