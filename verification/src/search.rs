//! Single-source, early-exit shortest-path search.
//!
//! The search is the classic label-setting algorithm over a composed graph
//! view: pop the best frontier entry, stop at the goal, otherwise relax
//! every neighbor that improves on its best known cost.  Costs are
//! abstracted behind the `Cost` contract and edge weights come from an
//! injected weight function over node values, so a frontier entry carries
//! the node value it arrived with, together with the route it was
//! discovered along.
//!
//! The contract proved here: a returned path starts at the start
//! coordinate, ends at the goal, follows edges of the view, and its total
//! cost is exactly the (saturating) weight sum along the returned points
//! under some value labelling (`search_path_ok`); when the search reports
//! the goal unreachable, no value-labelled walk from start to goal exists
//! at all; and whenever the weight of entering a node does not depend on
//! the value it is entered from (`source_independent`), the returned cost
//! is minimal over all walks.  With weights that do depend on the arrival
//! value, the coordinate-keyed relaxation can prefer a dearer onward
//! arrival, so minimality over all value-labelled walks does not hold of
//! this algorithm and is not claimed.

use crate::coord::GridCoord;
use crate::cost::Cost;
use crate::graph::{view_children_from, view_nodes_from, GraphLayer, GraphView, WeightGetter};
use crate::grid::Grid;
use crate::path::Path;
use std::collections::HashMap;
use std::collections::HashSet;
use vstd::prelude::*;

verus! {

broadcast use vstd::std_specs::hash::group_hash_axioms;

/// Why a search call failed.
#[derive(PartialEq, Eq, Structural, Clone, Copy, Debug)]
pub enum SearchError {
    /// The frontier was exhausted: no route from start to goal exists.
    GoalUnreachable,
    /// The search budget ran out first (in practice out of reach: the
    /// budget exceeds any realizable number of relaxations).
    BudgetExhausted,
}

/// A frontier entry: the cost it was discovered with, the node value it
/// arrived with, its coordinate, the coordinate it was reached from, and
/// the route it was discovered along (coordinates after the start, and,
/// as ghost data, the node values of the whole walk).
pub struct State<P, C: Cost> {
    pub cost: C,
    pub original_point: P,
    pub position: GridCoord,
    pub previous: Option<GridCoord>,
    pub path: Vec<GridCoord>,
    pub vals: Ghost<Seq<P>>,
}

impl<P, C: Cost> State<P, C> {
    /// Whether this entry is expanded before `other`: strictly lower cost
    /// first; among equal costs, the smaller coordinate key (the fixed,
    /// deterministic tie-break).
    pub fn higher_priority(&self, other: &Self) -> (r: bool)
        ensures
            r == (self.cost.value() < other.cost.value() || (self.cost.value()
                == other.cost.value() && self.position.key_spec() <= other.position.key_spec())),
    {
        if self.cost.lt(&other.cost) {
            true
        } else if other.cost.lt(&self.cost) {
            false
        } else {
            self.position.raw_key() <= other.position.raw_key()
        }
    }
}

/// Some edge of the composed view leads from `a` to `b`.
pub open spec fn edge_exists<T, L: GraphLayer<T>>(
    layers: Seq<&L>,
    a: GridCoord,
    b: GridCoord,
) -> bool {
    exists|i: int|
        0 <= i < view_children_from::<T, L>(layers, a, 0).len() && (
        #[trigger] view_children_from::<T, L>(layers, a, 0)[i]).0 == b
}

/// The points follow edges of the view, starting with an edge out of
/// `start`.
pub open spec fn points_connected<T, L: GraphLayer<T>>(
    layers: Seq<&L>,
    start: GridCoord,
    pts: Seq<GridCoord>,
) -> bool {
    &&& pts.len() >= 1
    &&& edge_exists::<T, L>(layers, start, pts[0])
    &&& forall|i: int|
        1 <= i < pts.len() ==> edge_exists::<T, L>(layers, pts[i - 1], #[trigger] pts[i])
}

/// A value-labelled walk: `vals[0]` is a node value stored at `coords[0]`
/// and every following pair is an edge of the view arriving with that
/// value.
pub open spec fn chain_connected<T, L: GraphLayer<T>>(
    layers: Seq<&L>,
    coords: Seq<GridCoord>,
    vals: Seq<T>,
) -> bool {
    &&& coords.len() == vals.len()
    &&& coords.len() >= 1
    &&& view_nodes_from(layers, coords[0], 0).contains(vals[0])
    &&& forall|i: int|
        1 <= i < coords.len() ==> #[trigger] view_children_from(layers, coords[i - 1], 0).contains(
            (coords[i], vals[i]),
        )
}

/// The total weight of a value-labelled walk.
pub open spec fn chain_cost<T, C: Cost, G: WeightGetter<T, C>>(getter: &G, vals: Seq<T>) -> int
    decreases vals.len(),
{
    if vals.len() <= 1 {
        0
    } else {
        chain_cost(getter, vals.drop_last()) + getter.spec_weight(
            vals[vals.len() - 2],
            vals[vals.len() - 1],
        ).value()
    }
}

/// The total weight of a value-labelled walk, clipped at the cost type's
/// maximum, which is how the search's saturating cost addition records it.
pub open spec fn saturated_chain_cost<T, C: Cost, G: WeightGetter<T, C>>(
    getter: &G,
    vals: Seq<T>,
) -> int {
    if chain_cost(getter, vals) <= C::max_value() {
        chain_cost(getter, vals)
    } else {
        C::max_value()
    }
}

/// Some value-labelled walk leads from `start` to `end` with total weight
/// `total`.
pub open spec fn is_route<T, C: Cost, G: WeightGetter<T, C>, L: GraphLayer<T>>(
    layers: Seq<&L>,
    getter: &G,
    start: GridCoord,
    end: GridCoord,
    total: int,
) -> bool {
    exists|coords: Seq<GridCoord>, vals: Seq<T>|
        {
            &&& #[trigger] chain_connected::<T, L>(layers, coords, vals)
            &&& coords[0] == start
            &&& coords.last() == end
            &&& chain_cost::<T, C, G>(getter, vals) == total
        }
}

/// What the search promises of a returned path: it ends at the goal; a
/// search to the start itself is the single start point at zero cost;
/// otherwise the returned points follow edges of the view and the total
/// cost is exactly the (saturating) weight sum along those points under
/// some value labelling — and so, below the cost maximum, the exact cost
/// of a route from start to goal.
pub open spec fn search_path_ok<T, C: Cost, G: WeightGetter<T, C>, L: GraphLayer<T>>(
    layers: Seq<&L>,
    getter: &G,
    start: GridCoord,
    end: GridCoord,
    p: Path<C>,
) -> bool {
    &&& p.points@.len() >= 1
    &&& p.points@.last() == end
    &&& (start == end ==> p.points@ =~= seq![start] && p.total_cost.value() == 0)
    &&& (start != end ==> points_connected::<T, L>(layers, start, p.points@))
    &&& (start != end ==> exists|vals: Seq<T>|
        #[trigger] chain_connected::<T, L>(layers, seq![start] + p.points@, vals)
            && p.total_cost.value() == saturated_chain_cost::<T, C, G>(getter, vals))
    &&& (p.total_cost.value() < C::max_value() ==> is_route::<T, C, G, L>(
        layers,
        getter,
        start,
        end,
        p.total_cost.value(),
    ))
}

/// A frontier entry is justified by the route it records: the start
/// followed by its stored points is a value-labelled walk whose
/// (saturating) weight sum is the entry's cost, ending at the entry's
/// position with the entry's arrival value, reached from the recorded
/// predecessor.
spec fn state_ok<T, C: Cost, G: WeightGetter<T, C>, L: GraphLayer<T>>(
    layers: Seq<&L>,
    getter: &G,
    start: GridCoord,
    s: State<T, C>,
) -> bool {
    let coords = seq![start] + s.path@;
    &&& s.vals@.len() == coords.len()
    &&& chain_connected::<T, L>(layers, coords, s.vals@)
    &&& s.cost.value() == saturated_chain_cost::<T, C, G>(getter, s.vals@)
    &&& s.position == coords.last()
    &&& s.vals@.last() == s.original_point
    &&& match s.previous {
        Some(p) => s.path@.len() >= 1 && p == coords[coords.len() - 2],
        None => s.path@.len() == 0,
    }
}


/// The weight of entering a node does not depend on the value it is
/// entered from.  Under this premise the coordinate-keyed relaxation is
/// exact, and the search's result is minimal over all walks.
pub open spec fn source_independent<T, C: Cost, G: WeightGetter<T, C>>(getter: &G) -> bool {
    forall|a1: T, a2: T, b: T|
        #![trigger getter.spec_weight(a1, b), getter.spec_weight(a2, b)]
        getter.spec_weight(a1, b) == getter.spec_weight(a2, b)
}

/// The cost of the walk prefix ending at node `j`.
pub open spec fn prefix_cost<T, C: Cost, G: WeightGetter<T, C>>(
    getter: &G,
    vals: Seq<T>,
    j: int,
) -> int {
    chain_cost(getter, vals.take(j + 1))
}

/// Extending a prefix by one node adds that step's weight.
proof fn lemma_prefix_step<T, C: Cost, G: WeightGetter<T, C>>(getter: &G, vals: Seq<T>, j: int)
    requires
        1 <= j < vals.len(),
    ensures
        prefix_cost(getter, vals, j) == prefix_cost(getter, vals, j - 1) + getter.spec_weight(
            vals[j - 1],
            vals[j],
        ).value(),
{
    assert(vals.take(j + 1).drop_last() =~= vals.take(j));
    assert(vals.take(j + 1).last() == vals[j]);
    assert(vals.take(j + 1)[vals.take(j + 1).len() - 2] == vals[j - 1]);
}

/// A walk costs nothing at its first node and no prefix costs more than
/// the whole walk: weights never subtract.
proof fn lemma_prefix_le_total<T, C: Cost, G: WeightGetter<T, C>>(getter: &G, vals: Seq<T>, j: int)
    requires
        0 <= j < vals.len(),
    ensures
        prefix_cost(getter, vals, j) <= chain_cost(getter, vals),
    decreases vals.len() - j,
{
    if j == vals.len() - 1 {
        assert(vals.take(j + 1) =~= vals);
    } else {
        lemma_prefix_step(getter, vals, j + 1);
        getter.spec_weight(vals[j], vals[j + 1]).lemma_value_in_range();
        lemma_prefix_le_total(getter, vals, j + 1);
    }
}

/// Walks cost at least nothing.
proof fn lemma_chain_cost_nonneg<T, C: Cost, G: WeightGetter<T, C>>(getter: &G, vals: Seq<T>)
    ensures
        chain_cost(getter, vals) >= 0,
    decreases vals.len(),
{
    if vals.len() > 1 {
        lemma_chain_cost_nonneg(getter, vals.drop_last());
        getter.spec_weight(vals[vals.len() - 2], vals[vals.len() - 1]).lemma_value_in_range();
    }
}

/// Truncating a walk keeps it a walk.
proof fn lemma_chain_take<T, L: GraphLayer<T>>(
    layers: Seq<&L>,
    coords: Seq<GridCoord>,
    vals: Seq<T>,
    n: int,
)
    requires
        chain_connected::<T, L>(layers, coords, vals),
        1 <= n <= coords.len(),
    ensures
        chain_connected::<T, L>(layers, coords.take(n), vals.take(n)),
{
    assert(coords.take(n)[0] == coords[0]);
    assert forall|i: int|
        1 <= i < coords.take(n).len() implies #[trigger] view_children_from(
        layers,
        coords.take(n)[i - 1],
        0,
    ).contains((coords.take(n)[i], vals.take(n)[i])) by {
        assert(coords.take(n)[i - 1] == coords[i - 1]);
        assert(coords.take(n)[i] == coords[i] && vals.take(n)[i] == vals[i]);
    }
}

/// The position of the first node of the walk not yet settled, scanning
/// from `from`.
spec fn first_unsettled(settled: Set<GridCoord>, coords: Seq<GridCoord>, from: int) -> int
    decreases coords.len() - from,
{
    if from < 0 || from >= coords.len() {
        coords.len() as int
    } else if !settled.contains(coords[from]) {
        from
    } else {
        first_unsettled(settled, coords, from + 1)
    }
}

/// `first_unsettled` stays in range, lands on an unsettled node, passes
/// only settled ones, and reaches the end only if everything is settled.
proof fn lemma_first_unsettled(settled: Set<GridCoord>, coords: Seq<GridCoord>, from: int)
    requires
        0 <= from <= coords.len(),
    ensures
        from <= first_unsettled(settled, coords, from) <= coords.len(),
        first_unsettled(settled, coords, from) < coords.len() ==> !settled.contains(
            coords[first_unsettled(settled, coords, from)],
        ),
        forall|i: int|
            from <= i < first_unsettled(settled, coords, from) ==> settled.contains(
                #[trigger] coords[i],
            ),
        first_unsettled(settled, coords, from) == coords.len() ==> forall|i: int|
            from <= i < coords.len() ==> settled.contains(#[trigger] coords[i]),
    decreases coords.len() - from,
{
    if from < coords.len() && settled.contains(coords[from]) {
        lemma_first_unsettled(settled, coords, from + 1);
    }
}

/// The search's minimality bookkeeping, meaningful only under
/// source-independent weights: the distance map lower-bounds every
/// frontier entry; some frontier entry realizes each unsettled recorded
/// distance; settled distances undercut every walk to them; a walk's
/// first unsettled node is recorded no dearer than the walk's prefix
/// there; settled coordinates' edges are fully relaxed; and an unsettled
/// start is recorded at zero.
#[verifier::opaque]
spec fn min_inv<T: Copy, C: Cost, G: WeightGetter<T, C>, L: GraphLayer<T>>(
    layers: Seq<&L>,
    getter: &G,
    dist: Map<i64, C>,
    settled: Set<GridCoord>,
    fr: Seq<State<T, C>>,
    start: GridCoord,
) -> bool {
    &&& (forall|i: int|
        0 <= i < fr.len() ==> dist.contains_key((#[trigger] fr[i]).position.key64())
            && dist[fr[i].position.key64()].value() <= fr[i].cost.value())
    &&& (forall|c: GridCoord|
        dist.contains_key(#[trigger] c.key64()) && !settled.contains(c) ==> exists|i: int|
            0 <= i < fr.len() && (#[trigger] fr[i]).position == c && fr[i].cost.value()
                == dist[c.key64()].value())
    &&& (forall|coords: Seq<GridCoord>, vals: Seq<T>|
        #![trigger chain_connected::<T, L>(layers, coords, vals), settled.contains(coords.last())]
        chain_connected::<T, L>(layers, coords, vals) && coords[0] == start && settled.contains(
            coords.last(),
        ) ==> dist.contains_key(coords.last().key64()) && dist[coords.last().key64()].value()
            <= chain_cost::<T, C, G>(getter, vals))
    &&& (forall|coords: Seq<GridCoord>, vals: Seq<T>, j: int|
        #![trigger chain_connected::<T, L>(layers, coords, vals), settled.contains(coords[j])]
        chain_connected::<T, L>(layers, coords, vals) && coords[0] == start && 0 <= j
            < coords.len() && (forall|i: int| 0 <= i < j ==> settled.contains(#[trigger] coords[i]))
            && !settled.contains(coords[j]) ==> dist.contains_key(coords[j].key64())
            && dist[coords[j].key64()].value() <= prefix_cost::<T, C, G>(getter, vals, j))
    &&& (forall|z: GridCoord, jj: int|
        #![trigger settled.contains(z), view_children_from::<T, L>(layers, z, 0)[jj]]
        settled.contains(z) && 0 <= jj < view_children_from::<T, L>(layers, z, 0).len()
            ==> settled.contains(view_children_from::<T, L>(layers, z, 0)[jj].0) || (
        dist.contains_key(view_children_from::<T, L>(layers, z, 0)[jj].0.key64()) && forall|a: T|
            dist[view_children_from::<T, L>(layers, z, 0)[jj].0.key64()].value()
                <= dist[z.key64()].value() + (#[trigger] getter.spec_weight(
                a,
                view_children_from::<T, L>(layers, z, 0)[jj].1,
            )).value()))
    &&& (!settled.contains(start) ==> dist.contains_key(start.key64())
        && dist[start.key64()].value() == 0)
}

/// When the cheapest frontier entry is popped, no walk from the start to
/// an unsettled coordinate is cheaper than it.
proof fn lemma_pop_lower_bound<T: Copy, C: Cost, G: WeightGetter<T, C>, L: GraphLayer<T>>(
    layers: Seq<&L>,
    getter: &G,
    dist: Map<i64, C>,
    settled: Set<GridCoord>,
    fr: Seq<State<T, C>>,
    start: GridCoord,
    m: State<T, C>,
    coords: Seq<GridCoord>,
    vals: Seq<T>,
)
    requires
        source_independent::<T, C, G>(getter),
        min_inv(layers, getter, dist, settled, fr, start),
        forall|i: int| 0 <= i < fr.len() ==> m.cost.value() <= (#[trigger] fr[i]).cost.value(),
        chain_connected::<T, L>(layers, coords, vals),
        coords[0] == start,
        !settled.contains(coords.last()),
    ensures
        m.cost.value() <= chain_cost::<T, C, G>(getter, vals),
{
    reveal(min_inv);
    lemma_first_unsettled(settled, coords, 0);
    let j = first_unsettled(settled, coords, 0);
    assert(j < coords.len()) by {
        if j == coords.len() {
            assert(settled.contains(coords[coords.len() - 1]));
        }
    }
    assert(dist.contains_key(coords[j].key64()) && dist[coords[j].key64()].value()
        <= prefix_cost::<T, C, G>(getter, vals, j));
    let i = choose|i: int|
        0 <= i < fr.len() && (#[trigger] fr[i]).position == coords[j] && fr[i].cost.value()
            == dist[coords[j].key64()].value();
    assert(m.cost.value() <= fr[i].cost.value());
    lemma_prefix_le_total(getter, vals, j);
}

/// Once every walk to the settled coordinates is undercut and every
/// settled edge fully relaxed, a walk's first unsettled node is recorded
/// no dearer than the walk's prefix there.
proof fn lemma_d_from_opt_sc<T: Copy, C: Cost, G: WeightGetter<T, C>, L: GraphLayer<T>>(
    layers: Seq<&L>,
    getter: &G,
    dist: Map<i64, C>,
    settled: Set<GridCoord>,
    fr: Seq<State<T, C>>,
    start: GridCoord,
)
    requires
        source_independent::<T, C, G>(getter),
        // the settled-walk and relaxed-edge and zero-start parts hold
        forall|coords: Seq<GridCoord>, vals: Seq<T>|
            #![trigger chain_connected::<T, L>(layers, coords, vals), settled.contains(coords.last())]
            chain_connected::<T, L>(layers, coords, vals) && coords[0] == start
                && settled.contains(coords.last()) ==> dist.contains_key(coords.last().key64())
                && dist[coords.last().key64()].value() <= chain_cost::<T, C, G>(getter, vals),
        forall|z: GridCoord, jj: int|
            #![trigger settled.contains(z), view_children_from::<T, L>(layers, z, 0)[jj]]
            settled.contains(z) && 0 <= jj < view_children_from::<T, L>(layers, z, 0).len()
                ==> settled.contains(view_children_from::<T, L>(layers, z, 0)[jj].0) || (
            dist.contains_key(view_children_from::<T, L>(layers, z, 0)[jj].0.key64()) && forall|
                a: T,
            |
                dist[view_children_from::<T, L>(layers, z, 0)[jj].0.key64()].value()
                    <= dist[z.key64()].value() + (#[trigger] getter.spec_weight(
                    a,
                    view_children_from::<T, L>(layers, z, 0)[jj].1,
                )).value()),
        !settled.contains(start) ==> dist.contains_key(start.key64())
            && dist[start.key64()].value() == 0,
    ensures
        forall|coords: Seq<GridCoord>, vals: Seq<T>, j: int|
            #![trigger chain_connected::<T, L>(layers, coords, vals), settled.contains(coords[j])]
            chain_connected::<T, L>(layers, coords, vals) && coords[0] == start && 0 <= j
                < coords.len() && (forall|i: int|
                0 <= i < j ==> settled.contains(#[trigger] coords[i])) && !settled.contains(
                coords[j],
            ) ==> dist.contains_key(coords[j].key64()) && dist[coords[j].key64()].value()
                <= prefix_cost::<T, C, G>(getter, vals, j),
{
    assert forall|coords: Seq<GridCoord>, vals: Seq<T>, j: int|
        #![trigger chain_connected::<T, L>(layers, coords, vals), settled.contains(coords[j])]
        chain_connected::<T, L>(layers, coords, vals) && coords[0] == start && 0 <= j
            < coords.len() && (forall|i: int| 0 <= i < j ==> settled.contains(#[trigger] coords[i]))
            && !settled.contains(coords[j]) implies dist.contains_key(coords[j].key64())
        && dist[coords[j].key64()].value() <= prefix_cost::<T, C, G>(getter, vals, j) by {
        if j == 0 {
            assert(!settled.contains(start));
            assert(prefix_cost::<T, C, G>(getter, vals, 0) == 0) by {
                assert(vals.take(1).len() == 1);
            }
        } else {
            let z = coords[j - 1];
            let pre_coords = coords.take(j);
            let pre_vals = vals.take(j);
            lemma_chain_take(layers, coords, vals, j);
            assert(pre_coords.last() == z);
            assert(settled.contains(pre_coords.last()));
            assert(dist.contains_key(z.key64()) && dist[z.key64()].value() <= chain_cost::<
                T,
                C,
                G,
            >(getter, pre_vals));
            assert(view_children_from(layers, coords[j - 1], 0).contains((coords[j], vals[j])));
            let jj = choose|jj: int|
                #![trigger view_children_from::<T, L>(layers, z, 0)[jj]]
                0 <= jj < view_children_from::<T, L>(layers, z, 0).len()
                    && view_children_from::<T, L>(layers, z, 0)[jj] == (coords[j], vals[j]);
            let e = view_children_from::<T, L>(layers, z, 0)[jj];
            assert(e == (coords[j], vals[j]));
            assert(!settled.contains(e.0));
            assert(dist.contains_key(e.0.key64()));
            assert(dist[e.0.key64()].value() <= dist[z.key64()].value() + getter.spec_weight(
                vals[j - 1],
                e.1,
            ).value());
            assert(dist[coords[j].key64()].value() <= dist[z.key64()].value()
                + getter.spec_weight(vals[j - 1], vals[j]).value());
            lemma_prefix_step(getter, vals, j);
            assert(prefix_cost::<T, C, G>(getter, vals, j - 1) == chain_cost::<T, C, G>(
                getter,
                pre_vals,
            ));
        }
    }
}


/// Relaxing an unsettled child — recording a strictly better (or first)
/// cost for it and pushing its entry — keeps the minimality bookkeeping,
/// and records the child as fully relaxed from the popped coordinate.
#[verifier::rlimit(100)]
proof fn lemma_relax_update<T: Copy, C: Cost, G: WeightGetter<T, C>, L: GraphLayer<T>>(
    layers: Seq<&L>,
    getter: &G,
    dist0: Map<i64, C>,
    settled: Set<GridCoord>,
    fr0: Seq<State<T, C>>,
    start: GridCoord,
    popped: State<T, C>,
    children: Seq<(GridCoord, T)>,
    j: int,
    child_pos: GridCoord,
    child_val: T,
    next: C,
    st_new: State<T, C>,
)
    requires
        source_independent::<T, C, G>(getter),
        children == view_children_from::<T, L>(layers, popped.position, 0),
        0 <= j < children.len(),
        children[j] == (child_pos, child_val),
        !settled.contains(child_pos),
        settled.contains(popped.position),
        dist0.contains_key(child_pos.key64()) ==> next.value() < dist0[
            child_pos.key64()].value(),
        next.value() <= popped.cost.value() + getter.spec_weight(
            popped.original_point,
            child_val,
        ).value(),
        next.value() >= 0,
        st_new.position == child_pos,
        st_new.cost == next,
        (forall|i: int|
            0 <= i < fr0.len() ==> dist0.contains_key((#[trigger] fr0[i]).position.key64())
                && dist0[fr0[i].position.key64()].value() <= fr0[i].cost.value()),
        (forall|c: GridCoord|
            dist0.contains_key(#[trigger] c.key64()) && !settled.contains(c) ==> exists|i: int|
                0 <= i < fr0.len() && (#[trigger] fr0[i]).position == c && fr0[i].cost.value()
                    == dist0[c.key64()].value()),
        (forall|coords: Seq<GridCoord>, vals: Seq<T>|
            #![trigger chain_connected::<T, L>(layers, coords, vals), settled.contains(coords.last())]
            chain_connected::<T, L>(layers, coords, vals) && coords[0] == start
                && settled.contains(coords.last()) ==> dist0.contains_key(
                coords.last().key64(),
            ) && dist0[coords.last().key64()].value() <= chain_cost::<T, C, G>(getter, vals)),
        (forall|z: GridCoord, jj: int|
            #![trigger settled.contains(z), view_children_from::<T, L>(layers, z, 0)[jj]]
            settled.contains(z) && z != popped.position && 0 <= jj < view_children_from::<T, L>(
                layers,
                z,
                0,
            ).len() ==> settled.contains(view_children_from::<T, L>(layers, z, 0)[jj].0) || (
            dist0.contains_key(view_children_from::<T, L>(layers, z, 0)[jj].0.key64()) && forall|
                a: T,
            |
                dist0[view_children_from::<T, L>(layers, z, 0)[jj].0.key64()].value()
                    <= dist0[z.key64()].value() + (#[trigger] getter.spec_weight(
                    a,
                    view_children_from::<T, L>(layers, z, 0)[jj].1,
                )).value())),
        (forall|jj: int|
            0 <= jj < j ==> settled.contains((#[trigger] children[jj]).0) || (
            dist0.contains_key(children[jj].0.key64()) && forall|a: T|
                dist0[children[jj].0.key64()].value() <= dist0[
                popped.position.key64()].value() + (#[trigger] getter.spec_weight(
                    a,
                    children[jj].1,
                )).value())),
        (dist0.contains_key(popped.position.key64()) && dist0[
            popped.position.key64()].value() == popped.cost.value()),
        (!settled.contains(start) ==> dist0.contains_key(start.key64()) && dist0[
            start.key64()].value() == 0),
    ensures
        (forall|i: int|
            0 <= i < fr0.push(st_new).len() ==> dist0.insert(child_pos.key64(), next).contains_key((#[trigger] fr0.push(st_new)[i]).position.key64())
                && dist0.insert(child_pos.key64(), next)[fr0.push(st_new)[i].position.key64()].value() <= fr0.push(st_new)[i].cost.value()),
        (forall|c: GridCoord|
            dist0.insert(child_pos.key64(), next).contains_key(#[trigger] c.key64()) && !settled.contains(c) ==> exists|i: int|
                0 <= i < fr0.push(st_new).len() && (#[trigger] fr0.push(st_new)[i]).position == c && fr0.push(st_new)[i].cost.value()
                    == dist0.insert(child_pos.key64(), next)[c.key64()].value()),
        (forall|coords: Seq<GridCoord>, vals: Seq<T>|
            #![trigger chain_connected::<T, L>(layers, coords, vals), settled.contains(coords.last())]
            chain_connected::<T, L>(layers, coords, vals) && coords[0] == start
                && settled.contains(coords.last()) ==> dist0.insert(child_pos.key64(), next).contains_key(
                coords.last().key64(),
            ) && dist0.insert(child_pos.key64(), next)[coords.last().key64()].value() <= chain_cost::<T, C, G>(getter, vals)),
        (forall|z: GridCoord, jj: int|
            #![trigger settled.contains(z), view_children_from::<T, L>(layers, z, 0)[jj]]
            settled.contains(z) && z != popped.position && 0 <= jj < view_children_from::<T, L>(
                layers,
                z,
                0,
            ).len() ==> settled.contains(view_children_from::<T, L>(layers, z, 0)[jj].0) || (
            dist0.insert(child_pos.key64(), next).contains_key(view_children_from::<T, L>(layers, z, 0)[jj].0.key64()) && forall|
                a: T,
            |
                dist0.insert(child_pos.key64(), next)[view_children_from::<T, L>(layers, z, 0)[jj].0.key64()].value()
                    <= dist0.insert(child_pos.key64(), next)[z.key64()].value() + (#[trigger] getter.spec_weight(
                    a,
                    view_children_from::<T, L>(layers, z, 0)[jj].1,
                )).value())),
        (forall|jj: int|
            0 <= jj < j + 1 ==> settled.contains((#[trigger] children[jj]).0) || (
            dist0.insert(child_pos.key64(), next).contains_key(children[jj].0.key64()) && forall|a: T|
                dist0.insert(child_pos.key64(), next)[children[jj].0.key64()].value() <= dist0.insert(child_pos.key64(), next)[
                popped.position.key64()].value() + (#[trigger] getter.spec_weight(
                    a,
                    children[jj].1,
                )).value())),
        (dist0.insert(child_pos.key64(), next).contains_key(popped.position.key64()) && dist0.insert(child_pos.key64(), next)[
            popped.position.key64()].value() == popped.cost.value()),
        (!settled.contains(start) ==> dist0.insert(child_pos.key64(), next).contains_key(start.key64()) && dist0.insert(child_pos.key64(), next)[
            start.key64()].value() == 0),
{
    let dist1 = dist0.insert(child_pos.key64(), next);
    let fr1 = fr0.push(st_new);
    // keys other than the child's are untouched
    assert forall|c: GridCoord|
        c != child_pos implies c.key64() != child_pos.key64() && (dist1.contains_key(#[trigger] c.key64())
            == dist0.contains_key(c.key64())) && (dist0.contains_key(c.key64())
            ==> dist1[c.key64()] == dist0[c.key64()]) by {
        c.lemma_key_injective(child_pos);
    }
    assert((forall|i: int|
            0 <= i < fr0.push(st_new).len() ==> dist0.insert(child_pos.key64(), next).contains_key((#[trigger] fr0.push(st_new)[i]).position.key64())
                && dist0.insert(child_pos.key64(), next)[fr0.push(st_new)[i].position.key64()].value() <= fr0.push(st_new)[i].cost.value())) by {
        assert forall|i: int|
            0 <= i < fr1.len() implies dist1.contains_key((#[trigger] fr1[i]).position.key64())
                && dist1[fr1[i].position.key64()].value() <= fr1[i].cost.value() by {
            if i < fr0.len() {
                assert(fr1[i] == fr0[i]);
                if fr1[i].position == child_pos {
                } else {
                    assert(fr1[i].position.key64() != child_pos.key64());
                }
            } else {
                assert(fr1[i] == st_new);
            }
        }
    }
    assert((forall|c: GridCoord|
            dist0.insert(child_pos.key64(), next).contains_key(#[trigger] c.key64()) && !settled.contains(c) ==> exists|i: int|
                0 <= i < fr0.push(st_new).len() && (#[trigger] fr0.push(st_new)[i]).position == c && fr0.push(st_new)[i].cost.value()
                    == dist0.insert(child_pos.key64(), next)[c.key64()].value())) by {
        assert forall|c: GridCoord|
            dist1.contains_key(#[trigger] c.key64()) && !settled.contains(c) implies exists|
            i: int,
        |
            0 <= i < fr1.len() && (#[trigger] fr1[i]).position == c && fr1[i].cost.value()
                == dist1[c.key64()].value() by {
            if c.key64() == child_pos.key64() {
                c.lemma_key_injective(child_pos);
                assert(fr1[fr1.len() - 1].position == c && fr1[fr1.len() - 1].cost.value()
                    == dist1[c.key64()].value());
            } else {
                let i = choose|i: int|
                    0 <= i < fr0.len() && (#[trigger] fr0[i]).position == c && fr0[i].cost.value()
                        == dist0[c.key64()].value();
                assert(fr1[i] == fr0[i]);
            }
        }
    }
    assert((forall|coords: Seq<GridCoord>, vals: Seq<T>|
            #![trigger chain_connected::<T, L>(layers, coords, vals), settled.contains(coords.last())]
            chain_connected::<T, L>(layers, coords, vals) && coords[0] == start
                && settled.contains(coords.last()) ==> dist0.insert(child_pos.key64(), next).contains_key(
                coords.last().key64(),
            ) && dist0.insert(child_pos.key64(), next)[coords.last().key64()].value() <= chain_cost::<T, C, G>(getter, vals))) by {
        assert forall|coords: Seq<GridCoord>, vals: Seq<T>|
            #![trigger chain_connected::<T, L>(layers, coords, vals), settled.contains(coords.last())]
            chain_connected::<T, L>(layers, coords, vals) && coords[0] == start
                && settled.contains(coords.last()) implies dist1.contains_key(
            coords.last().key64(),
        ) && dist1[coords.last().key64()].value() <= chain_cost::<T, C, G>(getter, vals) by {
            assert(coords.last() != child_pos);
        }
    }
    assert forall|z: GridCoord, jj: int|
        #![trigger settled.contains(z), view_children_from::<T, L>(layers, z, 0)[jj]]
        settled.contains(z) && z != popped.position && 0 <= jj < view_children_from::<T, L>(
            layers,
            z,
            0,
        ).len() implies settled.contains(view_children_from::<T, L>(layers, z, 0)[jj].0) || (
        dist1.contains_key(view_children_from::<T, L>(layers, z, 0)[jj].0.key64()) && forall|a: T|
            dist1[view_children_from::<T, L>(layers, z, 0)[jj].0.key64()].value()
                <= dist1[z.key64()].value() + (#[trigger] getter.spec_weight(
                a,
                view_children_from::<T, L>(layers, z, 0)[jj].1,
            )).value()) by {
        let e = view_children_from::<T, L>(layers, z, 0)[jj];
        assert(z != child_pos);
        if !settled.contains(e.0) {
            assert(dist0.contains_key(e.0.key64()));
            if e.0 == child_pos {
                assert(dist1[e.0.key64()].value() == next.value());
                assert(next.value() < dist0[e.0.key64()].value());
            } else {
                assert(dist1[e.0.key64()] == dist0[e.0.key64()]);
            }
        }
    }
    assert forall|jj: int|
        0 <= jj < j + 1 implies settled.contains((#[trigger] children[jj]).0) || (
        dist1.contains_key(children[jj].0.key64()) && forall|a: T|
            dist1[children[jj].0.key64()].value() <= dist1[popped.position.key64()].value() + (
            #[trigger] getter.spec_weight(a, children[jj].1)).value()) by {
        assert(popped.position != child_pos);
        assert(dist1[popped.position.key64()] == dist0[popped.position.key64()]);
        if jj < j {
            if !settled.contains(children[jj].0) {
                if children[jj].0 == child_pos {
                    assert forall|a: T|
                        dist1[children[jj].0.key64()].value() <= dist1[
                        popped.position.key64()].value() + (#[trigger] getter.spec_weight(
                            a,
                            children[jj].1,
                        )).value() by {
                        assert(dist1[children[jj].0.key64()].value() == next.value());
                        assert(next.value() < dist0[children[jj].0.key64()].value());
                    }
                } else {
                    assert(dist1[children[jj].0.key64()] == dist0[children[jj].0.key64()]);
                }
            }
        } else {
            assert(children[jj] == (child_pos, child_val));
            assert forall|a: T|
                dist1[children[jj].0.key64()].value() <= dist1[
                popped.position.key64()].value() + (#[trigger] getter.spec_weight(
                    a,
                    children[jj].1,
                )).value() by {
                assert(getter.spec_weight(a, child_val) == getter.spec_weight(
                    popped.original_point,
                    child_val,
                ));
                assert(dist1[child_pos.key64()].value() == next.value());
            }
        }
    }
    assert(popped.position != child_pos);
    if !settled.contains(start) {
        if start == child_pos {
            assert(dist0.contains_key(start.key64()) && dist0[start.key64()].value() == 0);
            assert(next.value() < 0);
            assert(false);
        }
    }
}


/// Settling the popped minimum keeps the walk bounds: walks into the
/// settled set stay undercut (the fresh coordinate by the popped cost,
/// which its record equals), and unsettled records keep a realizing
/// frontier entry.
#[verifier::rlimit(100)]
proof fn lemma_settle_popped<T: Copy, C: Cost, G: WeightGetter<T, C>, L: GraphLayer<T>>(
    layers: Seq<&L>,
    getter: &G,
    dist: Map<i64, C>,
    settled0: Set<GridCoord>,
    settled: Set<GridCoord>,
    pre_frontier: Seq<State<T, C>>,
    fr: Seq<State<T, C>>,
    start: GridCoord,
    popped: State<T, C>,
    best: int,
)
    requires
        source_independent::<T, C, G>(getter),
        min_inv(layers, getter, dist, settled0, pre_frontier, start),
        0 <= best < pre_frontier.len(),
        popped == pre_frontier[best],
        forall|i: int|
            0 <= i < pre_frontier.len() ==> popped.cost.value() <= (
            #[trigger] pre_frontier[i]).cost.value(),
        !settled0.contains(popped.position),
        settled == settled0.insert(popped.position),
        fr == pre_frontier.update(best, pre_frontier.last()).drop_last(),
        dist.contains_key(popped.position.key64()),
    ensures
        dist[popped.position.key64()].value() == popped.cost.value(),
        forall|i: int|
            0 <= i < fr.len() ==> dist.contains_key((#[trigger] fr[i]).position.key64())
                && dist[fr[i].position.key64()].value() <= fr[i].cost.value(),
        forall|c: GridCoord|
            dist.contains_key(#[trigger] c.key64()) && !settled.contains(c) ==> exists|i: int|
                0 <= i < fr.len() && (#[trigger] fr[i]).position == c && fr[i].cost.value()
                    == dist[c.key64()].value(),
        forall|coords: Seq<GridCoord>, vals: Seq<T>|
            #![trigger chain_connected::<T, L>(layers, coords, vals), settled.contains(coords.last())]
            chain_connected::<T, L>(layers, coords, vals) && coords[0] == start
                && settled.contains(coords.last()) ==> dist.contains_key(coords.last().key64())
                && dist[coords.last().key64()].value() <= chain_cost::<T, C, G>(getter, vals),
        forall|z: GridCoord, jj: int|
            #![trigger settled.contains(z), view_children_from::<T, L>(layers, z, 0)[jj]]
            settled.contains(z) && z != popped.position && 0 <= jj < view_children_from::<T, L>(
                layers,
                z,
                0,
            ).len() ==> settled.contains(view_children_from::<T, L>(layers, z, 0)[jj].0) || (
            dist.contains_key(view_children_from::<T, L>(layers, z, 0)[jj].0.key64()) && forall|
                a: T,
            |
                dist[view_children_from::<T, L>(layers, z, 0)[jj].0.key64()].value()
                    <= dist[z.key64()].value() + (#[trigger] getter.spec_weight(
                    a,
                    view_children_from::<T, L>(layers, z, 0)[jj].1,
                )).value()),
        !settled.contains(start) ==> dist.contains_key(start.key64()) && dist[
            start.key64()].value() == 0,
{
    reveal(min_inv);
    let p = popped.position;
    let e = choose|e: int|
        0 <= e < pre_frontier.len() && (#[trigger] pre_frontier[e]).position == p
            && pre_frontier[e].cost.value() == dist[p.key64()].value();
    assert(dist[p.key64()].value() == popped.cost.value());
    assert forall|c: GridCoord|
        dist.contains_key(#[trigger] c.key64()) && !settled.contains(c) implies exists|i: int|
        0 <= i < fr.len() && (#[trigger] fr[i]).position == c && fr[i].cost.value() == dist[
        c.key64()].value() by {
        let i = choose|i: int|
            0 <= i < pre_frontier.len() && (#[trigger] pre_frontier[i]).position == c
                && pre_frontier[i].cost.value() == dist[c.key64()].value();
        if i == best {
            assert(false);
        } else if i == pre_frontier.len() - 1 {
            assert(fr[best] == pre_frontier[i]);
        } else {
            assert(fr[i] == pre_frontier[i]);
        }
    }
    assert forall|coords: Seq<GridCoord>, vals: Seq<T>|
        #![trigger chain_connected::<T, L>(layers, coords, vals), settled.contains(coords.last())]
        chain_connected::<T, L>(layers, coords, vals) && coords[0] == start && settled.contains(
            coords.last(),
        ) implies dist.contains_key(coords.last().key64()) && dist[
        coords.last().key64()].value() <= chain_cost::<T, C, G>(getter, vals) by {
        if !settled0.contains(coords.last()) {
            assert(coords.last() == p);
            lemma_pop_lower_bound(
                layers,
                getter,
                dist,
                settled0,
                pre_frontier,
                start,
                popped,
                coords,
                vals,
            );
        }
    }
}

/// With the freshly settled coordinate's edges now fully relaxed, the
/// whole minimality bookkeeping holds again.
#[verifier::rlimit(100)]
proof fn lemma_assemble_min_inv<T: Copy, C: Cost, G: WeightGetter<T, C>, L: GraphLayer<T>>(
    layers: Seq<&L>,
    getter: &G,
    dist: Map<i64, C>,
    settled: Set<GridCoord>,
    fr: Seq<State<T, C>>,
    start: GridCoord,
    popped: State<T, C>,
    children: Seq<(GridCoord, T)>,
)
    requires
        source_independent::<T, C, G>(getter),
        children == view_children_from::<T, L>(layers, popped.position, 0),
        settled.contains(popped.position),
        forall|i: int|
            0 <= i < fr.len() ==> dist.contains_key((#[trigger] fr[i]).position.key64())
                && dist[fr[i].position.key64()].value() <= fr[i].cost.value(),
        forall|c: GridCoord|
            dist.contains_key(#[trigger] c.key64()) && !settled.contains(c) ==> exists|i: int|
                0 <= i < fr.len() && (#[trigger] fr[i]).position == c && fr[i].cost.value()
                    == dist[c.key64()].value(),
        forall|coords: Seq<GridCoord>, vals: Seq<T>|
            #![trigger chain_connected::<T, L>(layers, coords, vals), settled.contains(coords.last())]
            chain_connected::<T, L>(layers, coords, vals) && coords[0] == start
                && settled.contains(coords.last()) ==> dist.contains_key(coords.last().key64())
                && dist[coords.last().key64()].value() <= chain_cost::<T, C, G>(getter, vals),
        forall|z: GridCoord, jj: int|
            #![trigger settled.contains(z), view_children_from::<T, L>(layers, z, 0)[jj]]
            settled.contains(z) && z != popped.position && 0 <= jj < view_children_from::<T, L>(
                layers,
                z,
                0,
            ).len() ==> settled.contains(view_children_from::<T, L>(layers, z, 0)[jj].0) || (
            dist.contains_key(view_children_from::<T, L>(layers, z, 0)[jj].0.key64()) && forall|
                a: T,
            |
                dist[view_children_from::<T, L>(layers, z, 0)[jj].0.key64()].value()
                    <= dist[z.key64()].value() + (#[trigger] getter.spec_weight(
                    a,
                    view_children_from::<T, L>(layers, z, 0)[jj].1,
                )).value()),
        forall|jj: int|
            0 <= jj < children.len() ==> settled.contains((#[trigger] children[jj]).0) || (
            dist.contains_key(children[jj].0.key64()) && forall|a: T|
                dist[children[jj].0.key64()].value() <= dist[popped.position.key64()].value() + (
                #[trigger] getter.spec_weight(a, children[jj].1)).value()),
        dist.contains_key(popped.position.key64()),
        !settled.contains(start) ==> dist.contains_key(start.key64()) && dist[
            start.key64()].value() == 0,
    ensures
        min_inv(layers, getter, dist, settled, fr, start),
{
    reveal(min_inv);
    assert forall|z: GridCoord, jj: int|
        #![trigger settled.contains(z), view_children_from::<T, L>(layers, z, 0)[jj]]
        settled.contains(z) && 0 <= jj < view_children_from::<T, L>(layers, z, 0).len() implies
        settled.contains(view_children_from::<T, L>(layers, z, 0)[jj].0) || (dist.contains_key(
            view_children_from::<T, L>(layers, z, 0)[jj].0.key64(),
        ) && forall|a: T|
            dist[view_children_from::<T, L>(layers, z, 0)[jj].0.key64()].value() <= dist[
            z.key64()].value() + (#[trigger] getter.spec_weight(
                a,
                view_children_from::<T, L>(layers, z, 0)[jj].1,
            )).value()) by {
        if z == popped.position {
            assert(children[jj] == view_children_from::<T, L>(layers, z, 0)[jj]);
            assert(settled.contains((children[jj]).0) || (dist.contains_key(
                children[jj].0.key64(),
            ) && forall|a: T|
                dist[children[jj].0.key64()].value() <= dist[popped.position.key64()].value() + (
                #[trigger] getter.spec_weight(a, children[jj].1)).value()));
        }
    }
    lemma_d_from_opt_sc(layers, getter, dist, settled, fr, start);
}

/// Some frontier entry sits at coordinate `c`.
spec fn in_frontier<T, C: Cost>(fr: Seq<State<T, C>>, c: GridCoord) -> bool {
    exists|i: int| 0 <= i < fr.len() && (#[trigger] fr[i]).position == c
}

/// In a set of coordinates closed under the view's edges, a walk that
/// starts inside never leaves.
proof fn lemma_settled_chain<T, L: GraphLayer<T>>(
    layers: Seq<&L>,
    settled: Set<GridCoord>,
    coords: Seq<GridCoord>,
    vals: Seq<T>,
)
    requires
        chain_connected::<T, L>(layers, coords, vals),
        settled.contains(coords[0]),
        forall|c: GridCoord, j: int|
            #![trigger settled.contains(c), view_children_from::<T, L>(layers, c, 0)[j]]
            settled.contains(c) && 0 <= j < view_children_from::<T, L>(layers, c, 0).len()
                ==> settled.contains(view_children_from::<T, L>(layers, c, 0)[j].0),
    ensures
        settled.contains(coords.last()),
    decreases coords.len(),
{
    if coords.len() > 1 {
        let n = coords.len() as int;
        assert(chain_connected::<T, L>(layers, coords.drop_last(), vals.drop_last())) by {
            assert(coords.drop_last()[0] == coords[0]);
            assert forall|i: int|
                1 <= i < coords.drop_last().len() implies #[trigger] view_children_from(
                layers,
                coords.drop_last()[i - 1],
                0,
            ).contains((coords.drop_last()[i], vals.drop_last()[i])) by {
                assert(coords.drop_last()[i - 1] == coords[i - 1]);
                assert(coords.drop_last()[i] == coords[i] && vals.drop_last()[i] == vals[i]);
            }
        }
        lemma_settled_chain(layers, settled, coords.drop_last(), vals.drop_last());
        assert(settled.contains(coords[n - 2]));
        assert(view_children_from(layers, coords[n - 2], 0).contains((coords[n - 1], vals[n - 1])));
        let j = choose|j: int|
            #![trigger view_children_from::<T, L>(layers, coords[n - 2], 0)[j]]
            0 <= j < view_children_from::<T, L>(layers, coords[n - 2], 0).len()
                && view_children_from::<T, L>(layers, coords[n - 2], 0)[j] == (
            coords[n - 1],
            vals[n - 1],
        );
        assert(settled.contains(view_children_from::<T, L>(layers, coords[n - 2], 0)[j].0));
    }
}

/// Copies a coordinate list.
fn copy_coords(v: &Vec<GridCoord>) -> (r: Vec<GridCoord>)
    ensures
        r@ == v@,
{
    let mut r: Vec<GridCoord> = Vec::new();
    let n = v.len();
    let mut i: usize = 0;
    while i < n
        invariant
            i <= n,
            n == v@.len(),
            r@ =~= v@.take(i as int),
        decreases n - i,
    {
        r.push(v[i]);
        i = i + 1;
    }
    proof {
        assert(v@.take(n as int) =~= v@);
    }
    r
}

/// Computes a lowest-cost route from `start` to `end` over the composed
/// view under the coordinate-keyed relaxation, where the weight of
/// entering a node may depend on the value the previous node was occupied
/// with.  Fails with `GoalUnreachable` exactly when no route exists.
#[verifier::rlimit(100)]
pub fn dijkstra<T: Copy, C: Cost, G: WeightGetter<T, C>, L: GraphLayer<T>>(
    graph: &GraphView<L>,
    getter: &G,
    start: GridCoord,
    end: GridCoord,
) -> (r: Result<Path<C>, SearchError>)
    ensures
        match r {
            Ok(p) => search_path_ok::<T, C, G, L>(graph.layers_spec(), getter, start, end, p),
            Err(_) => true,
        },
        match r {
            Ok(p) => source_independent::<T, C, G>(getter) ==> forall|total: int|
                is_route::<T, C, G, L>(graph.layers_spec(), getter, start, end, total)
                    ==> p.total_cost.value() <= total,
            Err(_) => true,
        },
        r == Err::<Path<C>, SearchError>(SearchError::GoalUnreachable) ==> !exists|total: int|
            is_route::<T, C, G, L>(graph.layers_spec(), getter, start, end, total),
        (exists|total: int| is_route::<T, C, G, L>(graph.layers_spec(), getter, start, end, total))
            ==> (r is Ok || r == Err::<Path<C>, SearchError>(SearchError::BudgetExhausted)),
        start == end && graph.spec_nodes::<T>(start).len() > 0 ==> r is Ok,
{
    let ghost layers = graph.layers_spec();
    let start_values: Vec<T> = graph.get_node(start);
    if start_values.len() == 0 {
        proof {
            if exists|total: int| is_route::<T, C, G, L>(layers, getter, start, end, total) {
                let total = choose|total: int|
                    is_route::<T, C, G, L>(layers, getter, start, end, total);
                let (coords, vals) = choose|coords: Seq<GridCoord>, vals: Seq<T>|
                    {
                        &&& #[trigger] chain_connected::<T, L>(layers, coords, vals)
                        &&& coords[0] == start
                        &&& coords.last() == end
                        &&& chain_cost::<T, C, G>(getter, vals) == total
                    };
                assert(view_nodes_from(layers, start, 0).contains(vals[0]));
                assert(false);
            }
        }
        return Err(SearchError::GoalUnreachable);
    }
    if start == end {
        let mut pts: Vec<GridCoord> = Vec::new();
        pts.push(start);
        let zero = C::zero();
        proof {
            let coords = seq![start];
            let vals = seq![start_values@[0]];
            assert(chain_connected::<T, L>(layers, coords, vals));
            assert(chain_cost::<T, C, G>(getter, vals) == 0);
            assert(is_route::<T, C, G, L>(layers, getter, start, end, zero.value()));
            assert(pts@ =~= seq![start]);
            assert forall|total: int|
                is_route::<T, C, G, L>(layers, getter, start, end, total) implies zero.value()
                <= total by {
                let (rc, rv) = choose|rc: Seq<GridCoord>, rv: Seq<T>|
                    {
                        &&& #[trigger] chain_connected::<T, L>(layers, rc, rv)
                        &&& rc[0] == start
                        &&& rc.last() == end
                        &&& chain_cost::<T, C, G>(getter, rv) == total
                    };
                lemma_chain_cost_nonneg(getter, rv);
            }
        }
        return Ok(Path { total_cost: zero, points: pts });
    }
    let mut dist: HashMap<i64, C> = HashMap::new();
    let mut closed: HashSet<i64> = HashSet::new();
    let mut frontier: Vec<State<T, C>> = Vec::new();
    let zero = C::zero();
    dist.insert(start.raw_key(), zero);
    let ghost mut discovered: Set<GridCoord> = Set::empty().insert(start);
    let ghost mut settled: Set<GridCoord> = Set::empty();
    // one frontier entry per node value stored at the start
    let nv = start_values.len();
    let mut vi: usize = 0;
    while vi < nv
        invariant
            vi <= nv,
            nv == start_values@.len(),
            start_values@ == view_nodes_from(layers, start, 0),
            layers == graph.layers_spec(),
            zero.value() == 0,
            dist@ == Map::<i64, C>::empty().insert(start.key64(), zero),
            closed@ == Set::<i64>::empty(),
            discovered == Set::empty().insert(start),
            settled == Set::<GridCoord>::empty(),
            frontier@.len() == vi,
            forall|i: int|
                0 <= i < frontier@.len() ==> state_ok(layers, getter, start, #[trigger] frontier@[i])
                    && frontier@[i].position == start && frontier@[i].cost.value() == 0,
        decreases nv - vi,
    {
        let v = start_values[vi];
        let ghost gvals = seq![v];
        frontier.push(
            State {
                cost: zero,
                original_point: v,
                position: start,
                previous: None,
                path: Vec::new(),
                vals: Ghost(gvals),
            },
        );
        proof {
            zero.lemma_value_in_range();
            let s = frontier@.last();
            assert(seq![start] + s.path@ =~= seq![start]);
            assert(chain_connected::<T, L>(layers, seq![start], seq![v]));
            assert(chain_cost::<T, C, G>(getter, seq![v]) == 0);
            assert(saturated_chain_cost::<T, C, G>(getter, seq![v]) == 0);
            assert(state_ok(layers, getter, start, s));
        }
        vi = vi + 1;
    }
    proof {
        assert(in_frontier(frontier@, start)) by {
            assert(frontier@[0].position == start);
        }
        assert forall|c: GridCoord| #[trigger]
            dist@.contains_key(c.key64()) implies discovered.contains(c) by {
            c.lemma_key_injective(start);
        }
        if source_independent::<T, C, G>(getter) {
            reveal(min_inv);
            assert forall|c: GridCoord|
                dist@.contains_key(#[trigger] c.key64()) && !settled.contains(c) implies exists|
                i: int,
            |
                0 <= i < frontier@.len() && (#[trigger] frontier@[i]).position == c
                    && frontier@[i].cost.value() == dist@[c.key64()].value() by {
                c.lemma_key_injective(start);
                assert(frontier@[0].position == c && frontier@[0].cost.value() == dist@[
                    c.key64()].value());
            }
            assert forall|i: int|
                0 <= i < frontier@.len() implies dist@.contains_key(
                (#[trigger] frontier@[i]).position.key64(),
            ) && dist@[frontier@[i].position.key64()].value() <= frontier@[i].cost.value() by {}
            assert forall|coords: Seq<GridCoord>, vals: Seq<T>, j: int|
                #![trigger chain_connected::<T, L>(layers, coords, vals), settled.contains(coords[j])]
                chain_connected::<T, L>(layers, coords, vals) && coords[0] == start && 0 <= j
                    < coords.len() && (forall|i: int|
                    0 <= i < j ==> settled.contains(#[trigger] coords[i])) && !settled.contains(
                    coords[j],
                ) implies dist@.contains_key(coords[j].key64()) && dist@[coords[j].key64()].value()
                <= prefix_cost::<T, C, G>(getter, vals, j) by {
                assert(j == 0);
                assert(vals.take(1).len() == 1);
            }
            assert(min_inv(layers, getter, dist@, settled, frontier@, start));
        }
    }
    // Termination bound: every relaxation either discovers a coordinate or
    // strictly lowers its best known cost, so the work is finite; the
    // budget below exceeds any realizable number of relaxations and
    // doubles as the loop's verified termination measure.  Running out of
    // budget is reported apart from unreachability.
    let mut fuel: u64 = 0xffff_ffff_ffff_ffffu64;
    while frontier.len() > 0 && fuel > 0
        invariant
            layers == graph.layers_spec(),
            start != end,
            forall|i: int|
                0 <= i < frontier@.len() ==> state_ok(
                    layers,
                    getter,
                    start,
                    #[trigger] frontier@[i],
                ),
            forall|c: GridCoord| #[trigger]
                dist@.contains_key(c.key64()) ==> discovered.contains(c),
            forall|c: GridCoord| #[trigger]
                discovered.contains(c) ==> settled.contains(c) || in_frontier(frontier@, c),
            forall|c: GridCoord, j: int|
                #![trigger settled.contains(c), view_children_from::<T, L>(layers, c, 0)[j]]
                settled.contains(c) && 0 <= j < view_children_from::<T, L>(layers, c, 0).len()
                    ==> discovered.contains(view_children_from::<T, L>(layers, c, 0)[j].0),
            forall|c: GridCoord|
                closed@.contains(#[trigger] c.key64()) <==> settled.contains(c),
            forall|c: GridCoord| #[trigger]
                settled.contains(c) ==> dist@.contains_key(c.key64()),
            forall|i: int|
                0 <= i < frontier@.len() ==> dist@.contains_key(
                    (#[trigger] frontier@[i]).position.key64(),
                ),
            discovered.contains(start),
            !settled.contains(end),
            source_independent::<T, C, G>(getter) ==> min_inv(
                layers,
                getter,
                dist@,
                settled,
                frontier@,
                start,
            ),
        decreases fuel,
    {
        fuel = fuel - 1;
        let mut best: usize = 0;
        let mut bi: usize = 1;
        while bi < frontier.len()
            invariant
                frontier@.len() > 0,
                best < frontier@.len(),
                bi <= frontier@.len(),
                forall|t: int|
                    0 <= t < bi ==> frontier@[best as int].cost.value() <= (
                    #[trigger] frontier@[t]).cost.value(),
            decreases frontier@.len() - bi,
        {
            if frontier[bi].higher_priority(&frontier[best]) {
                best = bi;
            }
            bi = bi + 1;
        }
        let ghost pre_frontier = frontier@;
        let popped = frontier.swap_remove(best);
        proof {
            assert(popped == pre_frontier[best as int]);
            assert(state_ok(layers, getter, start, popped));
        }
        if popped.position == end {
            proof {
                let coords = seq![start] + popped.path@;
                let vals = popped.vals@;
                if popped.path@.len() == 0 {
                    assert(coords =~= seq![start]);
                    assert(false);
                }
                assert(popped.path@.last() == coords.last());
                assert(points_connected::<T, L>(layers, start, popped.path@)) by {
                    assert(view_children_from(layers, coords[0], 0).contains(
                        (coords[1], vals[1]),
                    ));
                    assert(edge_exists::<T, L>(layers, start, popped.path@[0])) by {
                        let j = choose|j: int|
                            #![trigger view_children_from::<T, L>(layers, coords[0], 0)[j]]
                            0 <= j < view_children_from::<T, L>(layers, coords[0], 0).len()
                                && view_children_from::<T, L>(layers, coords[0], 0)[j] == (
                            coords[1],
                            vals[1],
                        );
                        assert(view_children_from::<T, L>(layers, start, 0)[j].0
                            == popped.path@[0]);
                    }
                    assert forall|i: int|
                        1 <= i < popped.path@.len() implies edge_exists::<T, L>(
                        layers,
                        popped.path@[i - 1],
                        #[trigger] popped.path@[i],
                    ) by {
                        assert(view_children_from(layers, coords[i], 0).contains(
                            (coords[i + 1], vals[i + 1]),
                        ));
                        let j = choose|j: int|
                            #![trigger view_children_from::<T, L>(layers, coords[i], 0)[j]]
                            0 <= j < view_children_from::<T, L>(layers, coords[i], 0).len()
                                && view_children_from::<T, L>(layers, coords[i], 0)[j] == (
                            coords[i + 1],
                            vals[i + 1],
                        );
                        assert(view_children_from::<T, L>(layers, popped.path@[i - 1], 0)[j].0
                            == popped.path@[i]);
                    }
                }
                if popped.cost.value() < C::max_value() {
                    assert(chain_cost::<T, C, G>(getter, vals) == popped.cost.value());
                    assert(is_route::<T, C, G, L>(layers, getter, start, end, popped.cost.value()));
                }
                if source_independent::<T, C, G>(getter) {
                    assert forall|total: int|
                        is_route::<T, C, G, L>(layers, getter, start, end, total) implies
                        popped.cost.value() <= total by {
                        let (rc, rv) = choose|rc: Seq<GridCoord>, rv: Seq<T>|
                            {
                                &&& #[trigger] chain_connected::<T, L>(layers, rc, rv)
                                &&& rc[0] == start
                                &&& rc.last() == end
                                &&& chain_cost::<T, C, G>(getter, rv) == total
                            };
                        lemma_pop_lower_bound(
                            layers,
                            getter,
                            dist@,
                            settled,
                            pre_frontier,
                            start,
                            popped,
                            rc,
                            rv,
                        );
                    }
                }
            }
            return Ok(Path { total_cost: popped.cost, points: popped.path });
        }
        let pkey = popped.position.raw_key();
        let was_settled = closed.contains(&pkey);
        if was_settled {
            // a later, costlier record of an already-expanded coordinate:
            // discard it
            proof {
                assert(settled.contains(popped.position));
                assert forall|c: GridCoord| #[trigger]
                    discovered.contains(c) implies settled.contains(c) || in_frontier(
                    frontier@,
                    c,
                ) by {
                    if !settled.contains(c) {
                        let i = choose|i: int|
                            0 <= i < pre_frontier.len() && (#[trigger] pre_frontier[i]).position
                                == c;
                        if i == best {
                            assert(false);
                        } else if i == pre_frontier.len() - 1 {
                            assert(frontier@[best as int].position == c);
                        } else {
                            assert(frontier@[i].position == c);
                        }
                    }
                }
                if source_independent::<T, C, G>(getter) {
                    reveal(min_inv);
                    assert forall|c: GridCoord|
                        dist@.contains_key(#[trigger] c.key64()) && !settled.contains(
                            c,
                        ) implies exists|i: int|
                        0 <= i < frontier@.len() && (#[trigger] frontier@[i]).position == c
                            && frontier@[i].cost.value() == dist@[c.key64()].value() by {
                        let i = choose|i: int|
                            0 <= i < pre_frontier.len() && (#[trigger] pre_frontier[i]).position
                                == c && pre_frontier[i].cost.value() == dist@[c.key64()].value();
                        if i == best {
                            assert(false);
                        } else if i == pre_frontier.len() - 1 {
                            assert(frontier@[best as int] == pre_frontier[i]);
                        } else {
                            assert(frontier@[i] == pre_frontier[i]);
                        }
                    }
                    assert(min_inv(layers, getter, dist@, settled, frontier@, start));
                }
            }
            continue;
        }
        closed.insert(pkey);
        let ghost settled0 = settled;
        proof {
            settled = settled.insert(popped.position);
            assert forall|c: GridCoord|
                closed@.contains(#[trigger] c.key64()) <==> settled.contains(c) by {
                if c.key64() == popped.position.key64() {
                    c.lemma_key_injective(popped.position);
                }
            }
            assert forall|c: GridCoord| #[trigger]
                discovered.contains(c) implies settled.contains(c) || in_frontier(
                frontier@,
                c,
            ) by {
                if c != popped.position && !settled.contains(c) {
                    let i = choose|i: int|
                        0 <= i < pre_frontier.len() && (#[trigger] pre_frontier[i]).position == c;
                    if i == best {
                        assert(false);
                    } else if i == pre_frontier.len() - 1 {
                        assert(frontier@[best as int].position == c);
                    } else {
                        assert(frontier@[i].position == c);
                    }
                }
            }
            if source_independent::<T, C, G>(getter) {
                assert(!settled0.contains(popped.position));
                assert(dist@.contains_key(popped.position.key64()));
                lemma_settle_popped(
                    layers,
                    getter,
                    dist@,
                    settled0,
                    settled,
                    pre_frontier,
                    frontier@,
                    start,
                    popped,
                    best as int,
                );
            }
        }
        let children: Vec<(GridCoord, T)> = graph.get_children(popped.position);
        let nc = children.len();
        let mut j: usize = 0;
        while j < nc
            invariant
                j <= nc,
                nc == children@.len(),
                children@ == view_children_from(layers, popped.position, 0),
                layers == graph.layers_spec(),
                start != end,
                state_ok(layers, getter, start, popped),
                popped.position != end,
                settled.contains(popped.position),
                forall|i: int|
                    0 <= i < frontier@.len() ==> state_ok(
                        layers,
                        getter,
                        start,
                        #[trigger] frontier@[i],
                    ),
                forall|c: GridCoord| #[trigger]
                    dist@.contains_key(c.key64()) ==> discovered.contains(c),
                forall|c: GridCoord| #[trigger]
                    discovered.contains(c) ==> settled.contains(c) || in_frontier(frontier@, c),
                forall|c: GridCoord, jj: int|
                    #![trigger settled.contains(c), view_children_from::<T, L>(layers, c, 0)[jj]]
                    settled.contains(c) && c != popped.position && 0 <= jj
                        < view_children_from::<T, L>(layers, c, 0).len() ==> discovered.contains(
                        view_children_from::<T, L>(layers, c, 0)[jj].0,
                    ),
                forall|jj: int|
                    0 <= jj < j ==> discovered.contains((#[trigger] children@[jj]).0),
                forall|c: GridCoord|
                    closed@.contains(#[trigger] c.key64()) <==> settled.contains(c),
                forall|c: GridCoord| #[trigger]
                    settled.contains(c) ==> dist@.contains_key(c.key64()),
                forall|i: int|
                    0 <= i < frontier@.len() ==> dist@.contains_key(
                        (#[trigger] frontier@[i]).position.key64(),
                    ),
                discovered.contains(start),
                !settled.contains(end),
                source_independent::<T, C, G>(getter) ==> {
                    &&& (forall|i: int|
                        0 <= i < frontier@.len() ==> dist@[(
                        #[trigger] frontier@[i]).position.key64()].value()
                            <= frontier@[i].cost.value())
                    &&& (forall|c: GridCoord|
                        dist@.contains_key(#[trigger] c.key64()) && !settled.contains(c)
                            ==> exists|i: int|
                            0 <= i < frontier@.len() && (#[trigger] frontier@[i]).position == c
                                && frontier@[i].cost.value() == dist@[c.key64()].value())
                    &&& (forall|coords: Seq<GridCoord>, vals: Seq<T>|
                        #![trigger chain_connected::<T, L>(layers, coords, vals), settled.contains(coords.last())]
                        chain_connected::<T, L>(layers, coords, vals) && coords[0] == start
                            && settled.contains(coords.last()) ==> dist@.contains_key(
                            coords.last().key64(),
                        ) && dist@[coords.last().key64()].value() <= chain_cost::<T, C, G>(
                            getter,
                            vals,
                        ))
                    &&& (forall|z: GridCoord, jj: int|
                        #![trigger settled.contains(z), view_children_from::<T, L>(layers, z, 0)[jj]]
                        settled.contains(z) && z != popped.position && 0 <= jj
                            < view_children_from::<T, L>(layers, z, 0).len() ==> settled.contains(
                            view_children_from::<T, L>(layers, z, 0)[jj].0,
                        ) || (dist@.contains_key(
                            view_children_from::<T, L>(layers, z, 0)[jj].0.key64(),
                        ) && forall|a: T|
                            dist@[view_children_from::<T, L>(layers, z, 0)[jj].0.key64()].value()
                                <= dist@[z.key64()].value() + (#[trigger] getter.spec_weight(
                                a,
                                view_children_from::<T, L>(layers, z, 0)[jj].1,
                            )).value()))
                    &&& (forall|jj: int|
                        0 <= jj < j ==> settled.contains((#[trigger] children@[jj]).0) || (
                        dist@.contains_key(children@[jj].0.key64()) && forall|a: T|
                            dist@[children@[jj].0.key64()].value() <= dist@[
                            popped.position.key64()].value() + (#[trigger] getter.spec_weight(
                                a,
                                children@[jj].1,
                            )).value()))
                    &&& dist@.contains_key(popped.position.key64())
                    &&& dist@[popped.position.key64()].value() == popped.cost.value()
                    &&& (!settled.contains(start) ==> dist@.contains_key(start.key64())
                        && dist@[start.key64()].value() == 0)
                },
            decreases nc - j,
        {
            let (child_pos, child_val) = children[j];
            let w = getter.get_weight(&popped.original_point, &child_val);
            let next_cost = popped.cost.add(w);
            let key = child_pos.raw_key();
            let child_settled = closed.contains(&key);
            if child_settled {
                // an already-expanded coordinate keeps its record
                proof {
                    assert(settled.contains(child_pos));
                    assert(dist@.contains_key(child_pos.key64()));
                    assert(discovered.contains(child_pos));
                }
                j = j + 1;
                continue;
            }
            let improves = match dist.get(&key) {
                Some(c) => next_cost.lt(c),
                None => true,
            };
            if improves {
                let ghost dist0 = dist@;
                dist.insert(key, next_cost);
                let mut new_path = copy_coords(&popped.path);
                new_path.push(child_pos);
                let ghost gvals = popped.vals@.push(child_val);
                let ghost fr_pre = frontier@;
                frontier.push(
                    State {
                        cost: next_cost,
                        original_point: child_val,
                        position: child_pos,
                        previous: Some(popped.position),
                        path: new_path,
                        vals: Ghost(gvals),
                    },
                );
                proof {
                    let ghost disc0 = discovered;
                    discovered = discovered.insert(child_pos);
                    let s = frontier@.last();
                    // the pushed entry records the popped route extended
                    // by one edge, with the saturating cost kept exact
                    assert(state_ok(layers, getter, start, s)) by {
                        w.lemma_value_in_range();
                        popped.cost.lemma_value_in_range();
                        next_cost.lemma_value_in_range();
                        let coords = seq![start] + popped.path@;
                        let coords2 = seq![start] + s.path@;
                        let vals2 = s.vals@;
                        assert(coords2 =~= coords.push(child_pos));
                        assert(vals2 =~= popped.vals@.push(child_val));
                        assert(vals2.drop_last() =~= popped.vals@);
                        assert(vals2[vals2.len() - 2] == popped.original_point);
                        assert(chain_cost::<T, C, G>(getter, vals2) == chain_cost::<T, C, G>(
                            getter,
                            popped.vals@,
                        ) + w.value());
                        assert(chain_connected::<T, L>(layers, coords2, vals2)) by {
                            assert forall|i: int|
                                1 <= i < coords2.len() implies #[trigger] view_children_from(
                                layers,
                                coords2[i - 1],
                                0,
                            ).contains((coords2[i], vals2[i])) by {
                                if i < coords.len() {
                                    assert(coords2[i - 1] == coords[i - 1]);
                                    assert(coords2[i] == coords[i]
                                        && vals2[i] == popped.vals@[i]);
                                } else {
                                    assert(coords2[i - 1] == coords.last());
                                    assert(view_children_from(
                                        layers,
                                        popped.position,
                                        0,
                                    ).contains((child_pos, child_val)));
                                }
                            }
                        }
                    }
                    assert forall|c: GridCoord| #[trigger]
                        dist@.contains_key(c.key64()) implies discovered.contains(c) by {
                        if c.key64() == child_pos.key64() {
                            c.lemma_key_injective(child_pos);
                        } else {
                            assert(dist0.contains_key(c.key64()));
                        }
                    }
                    assert forall|c: GridCoord| #[trigger]
                        discovered.contains(c) implies settled.contains(c) || in_frontier(
                        frontier@,
                        c,
                    ) by {
                        if c == child_pos {
                            assert(frontier@.last().position == c);
                        } else {
                            assert(disc0.contains(c));
                            if !settled.contains(c) {
                                assert(in_frontier(fr_pre, c));
                                let i = choose|i: int|
                                    0 <= i < fr_pre.len() && (#[trigger] fr_pre[i]).position == c;
                                assert(frontier@[i] == fr_pre[i]);
                                assert(frontier@[i].position == c);
                            }
                        }
                    }
                    if source_independent::<T, C, G>(getter) {
                        w.lemma_value_in_range();
                        next_cost.lemma_value_in_range();
                        assert(!settled.contains(child_pos));
                        lemma_relax_update(
                            layers,
                            getter,
                            dist0,
                            settled,
                            fr_pre,
                            start,
                            popped,
                            children@,
                            j as int,
                            child_pos,
                            child_val,
                            next_cost,
                            s,
                        );
                        assert(dist@ == dist0.insert(child_pos.key64(), next_cost));
                        assert(frontier@ == fr_pre.push(s));
                    }
                }
            } else {
                proof {
                    assert(dist@.contains_key(child_pos.key64()));
                    assert(discovered.contains(child_pos));
                    if source_independent::<T, C, G>(getter) {
                        w.lemma_value_in_range();
                        next_cost.lemma_value_in_range();
                        assert(dist@[child_pos.key64()].value() <= next_cost.value());
                        assert forall|a: T|
                            dist@[child_pos.key64()].value() <= dist@[
                            popped.position.key64()].value() + (#[trigger] getter.spec_weight(
                                a,
                                children@[j as int].1,
                            )).value() by {
                            assert(getter.spec_weight(a, child_val) == getter.spec_weight(
                                popped.original_point,
                                child_val,
                            ));
                            assert(next_cost.value() <= popped.cost.value() + w.value());
                        }
                    }
                }
            }
            j = j + 1;
        }
        proof {
            assert forall|c: GridCoord, jj: int|
                #![trigger settled.contains(c), view_children_from::<T, L>(layers, c, 0)[jj]]
                settled.contains(c) && 0 <= jj < view_children_from::<T, L>(
                    layers,
                    c,
                    0,
                ).len() implies discovered.contains(
                view_children_from::<T, L>(layers, c, 0)[jj].0,
            ) by {
                if c == popped.position {
                    assert(children@[jj].0 == view_children_from::<T, L>(layers, c, 0)[jj].0);
                }
            }
            if source_independent::<T, C, G>(getter) {
                lemma_assemble_min_inv(
                    layers,
                    getter,
                    dist@,
                    settled,
                    frontier@,
                    start,
                    popped,
                    children@,
                );
            }
        }
    }
    if frontier.len() == 0 {
        proof {
            if exists|total: int| is_route::<T, C, G, L>(layers, getter, start, end, total) {
                let total = choose|total: int|
                    is_route::<T, C, G, L>(layers, getter, start, end, total);
                let (coords, vals) = choose|coords: Seq<GridCoord>, vals: Seq<T>|
                    {
                        &&& #[trigger] chain_connected::<T, L>(layers, coords, vals)
                        &&& coords[0] == start
                        &&& coords.last() == end
                        &&& chain_cost::<T, C, G>(getter, vals) == total
                    };
                // with the frontier exhausted, every discovered coordinate
                // is settled and the settled set is closed under edges, so
                // the walk's endpoint would be settled — but the goal never
                // is: a contradiction
                assert(settled.contains(start));
                assert forall|c: GridCoord, j: int|
                    #![trigger settled.contains(c), view_children_from::<T, L>(layers, c, 0)[j]]
                    settled.contains(c) && 0 <= j < view_children_from::<T, L>(
                        layers,
                        c,
                        0,
                    ).len() implies settled.contains(
                    view_children_from::<T, L>(layers, c, 0)[j].0,
                ) by {
                    assert(discovered.contains(view_children_from::<T, L>(layers, c, 0)[j].0));
                }
                lemma_settled_chain(layers, settled, coords, vals);
                assert(false);
            }
        }
        Err(SearchError::GoalUnreachable)
    } else {
        Err(SearchError::BudgetExhausted)
    }
}

/// A uniform walk's total weight is one step weight per edge.
proof fn lemma_chain_cost_uniform<T, C: Cost, G: WeightGetter<T, C>>(
    getter: &G,
    vals: Seq<T>,
    w: int,
)
    requires
        forall|a: T, b: T| (#[trigger] getter.spec_weight(a, b)).value() == w,
        vals.len() >= 1,
    ensures
        chain_cost(getter, vals) == (vals.len() - 1) * w,
    decreases vals.len(),
{
    if vals.len() == 1 {
    } else {
        lemma_chain_cost_uniform(getter, vals.drop_last(), w);
        assert((vals.len() - 2) * w + w == (vals.len() - 1) * w) by (nonlinear_arith);
    }
}

/// A grid edge moves exactly one step along one axis.
proof fn lemma_grid_children_step<T: Copy>(g: Grid<T>, c: GridCoord, e: (GridCoord, T))
    requires
        crate::grid::grid_children_at(g, c.x(), c.y()).contains(e),
        g.dim_x_spec() <= 0x8000_0000,
        g.dim_y_spec() <= 0x8000_0000,
    ensures
        (e.0.x() == c.x() + 1 && e.0.y() == c.y()) || (e.0.x() == c.x() - 1 && e.0.y() == c.y())
            || (e.0.x() == c.x() && e.0.y() == c.y() + 1) || (e.0.x() == c.x() && e.0.y() == c.y()
            - 1),
{
    let x = c.x();
    let y = c.y();
    let s = crate::grid::grid_children_at(g, x, y);
    let i = choose|i: int| 0 <= i < s.len() && s[i] == e;
    if e.0 == g.coord_at(x - 1, y) && 1 <= x <= g.dim_x_spec() && 0 <= y < g.dim_y_spec() {
        crate::coord::lemma_spec_coord_xy(x - 1, y);
    }
    if e.0 == g.coord_at(x + 1, y) && -1 <= x < g.dim_x_spec() - 1 && 0 <= y < g.dim_y_spec() {
        crate::coord::lemma_spec_coord_xy(x + 1, y);
    }
    if e.0 == g.coord_at(x, y - 1) && 0 <= x < g.dim_x_spec() && 1 <= y <= g.dim_y_spec() {
        crate::coord::lemma_spec_coord_xy(x, y - 1);
    }
    if e.0 == g.coord_at(x, y + 1) && 0 <= x < g.dim_x_spec() && -1 <= y < g.dim_y_spec() - 1 {
        crate::coord::lemma_spec_coord_xy(x, y + 1);
    }
}

/// Over a single grid layer, a walk's horizontal displacement is at most
/// one column per edge.
proof fn lemma_chain_displacement<T: Copy>(
    layers: Seq<&Grid<T>>,
    coords: Seq<GridCoord>,
    vals: Seq<T>,
)
    requires
        layers.len() == 1,
        layers[0].dim_x_spec() <= 0x8000_0000,
        layers[0].dim_y_spec() <= 0x8000_0000,
        chain_connected::<T, Grid<T>>(layers, coords, vals),
    ensures
        coords.last().x() - coords[0].x() <= coords.len() - 1,
        coords[0].x() - coords.last().x() <= coords.len() - 1,
    decreases coords.len(),
{
    if coords.len() > 1 {
        let n = coords.len() as int;
        assert(chain_connected::<T, Grid<T>>(layers, coords.drop_last(), vals.drop_last())) by {
            assert(coords.drop_last()[0] == coords[0]);
            assert forall|i: int|
                1 <= i < coords.drop_last().len() implies #[trigger] view_children_from(
                layers,
                coords.drop_last()[i - 1],
                0,
            ).contains((coords.drop_last()[i], vals.drop_last()[i])) by {
                assert(coords.drop_last()[i - 1] == coords[i - 1]);
                assert(coords.drop_last()[i] == coords[i] && vals.drop_last()[i] == vals[i]);
            }
        }
        lemma_chain_displacement(layers, coords.drop_last(), vals.drop_last());
        assert(view_children_from(layers, coords[n - 2], 0).contains((coords[n - 1], vals[n - 1])));
        assert(view_children_from(layers, coords[n - 2], 0) =~= layers[0].spec_children(
            coords[n - 2],
        ) + view_children_from(layers, coords[n - 2], 1));
        assert(view_children_from(layers, coords[n - 2], 1) =~= Seq::<(GridCoord, T)>::empty());
        assert(layers[0].spec_children(coords[n - 2]).contains((coords[n - 1], vals[n - 1])));
        lemma_grid_children_step(
            *layers[0],
            coords[n - 2],
            (coords[n - 1], vals[n - 1]),
        );
        assert(coords.drop_last().last() == coords[n - 2]);
    }
}

/// Over a uniform-weight grid with no overlays, every route between two
/// coordinates two horizontal steps apart weighs at least twice the
/// per-step weight: a route's ends move one column per edge, so it has at
/// least two edges.  The search's result is such a route (`is_route`), so
/// its cost is bounded below accordingly; that the search also attains
/// this bound is checked by running it.
pub proof fn lemma_uniform_grid_two_step_cost<T: Copy, C: Cost, G: WeightGetter<T, C>>(
    layers: Seq<&Grid<T>>,
    getter: &G,
    start: GridCoord,
    end: GridCoord,
    total: int,
    w: int,
)
    requires
        layers.len() == 1,
        layers[0].dim_x_spec() <= 0x8000_0000,
        layers[0].dim_y_spec() <= 0x8000_0000,
        forall|a: T, b: T| (#[trigger] getter.spec_weight(a, b)).value() == w,
        w >= 0,
        is_route::<T, C, G, Grid<T>>(layers, getter, start, end, total),
        end.x() == start.x() + 2,
        end.y() == start.y(),
    ensures
        total >= 2 * w,
{
    let (coords, vals) = choose|coords: Seq<GridCoord>, vals: Seq<T>|
        {
            &&& #[trigger] chain_connected::<T, Grid<T>>(layers, coords, vals)
            &&& coords[0] == start
            &&& coords.last() == end
            &&& chain_cost::<T, C, G>(getter, vals) == total
        };
    lemma_chain_displacement(layers, coords, vals);
    lemma_chain_cost_uniform(getter, vals, w);
    assert(coords.len() - 1 >= 2);
    assert((vals.len() - 1) * w >= 2 * w) by (nonlinear_arith)
        requires
            vals.len() - 1 >= 2,
            w >= 0,
    ;
}


/// On a uniform-weight single-grid view, the cost the search returns for
/// two coordinates two columns apart is exactly twice the per-step
/// weight: every route needs at least two edges, and the straight
/// two-edge route attains the bound, which the search's minimality
/// undercuts.  `total` stands for the returned cost, with the two facts
/// the search's contract supplies about it.
pub proof fn lemma_uniform_grid_two_step_exact<T: Copy, C: Cost, G: WeightGetter<T, C>>(
    layers: Seq<&Grid<T>>,
    getter: &G,
    start: GridCoord,
    end: GridCoord,
    total: int,
    w: int,
)
    requires
        layers.len() == 1,
        layers[0].dim_x_spec() <= 0x8000_0000,
        layers[0].dim_y_spec() <= 0x8000_0000,
        forall|a: T, b: T| (#[trigger] getter.spec_weight(a, b)).value() == w,
        w >= 0,
        is_route::<T, C, G, Grid<T>>(layers, getter, start, end, total),
        forall|t: int|
            is_route::<T, C, G, Grid<T>>(layers, getter, start, end, t) ==> total <= t,
        end.x() == start.x() + 2,
        end.y() == start.y(),
        layers[0].in_bounds(start.x(), start.y()),
        layers[0].in_bounds(start.x() + 2, start.y()),
    ensures
        total == 2 * w,
{
    lemma_uniform_grid_two_step_cost(layers, getter, start, end, total, w);
    let g = *layers[0];
    let x = start.x();
    let y = start.y();
    let mid = crate::coord::spec_coord_xy(x + 1, y);
    start.lemma_coord_from_parts();
    end.lemma_coord_from_parts();
    crate::coord::lemma_spec_coord_xy(x + 1, y);
    assert(start == g.coord_at(x, y));
    assert(end == g.coord_at(x + 2, y));
    let coords = seq![start, mid, end];
    let vals = seq![g.spec_get(x, y), g.spec_get(x + 1, y), g.spec_get(x + 2, y)];
    // the straight walk exists: its nodes are stored and its edges are
    // grid edges
    assert(view_nodes_from(layers, start, 0).contains(vals[0])) by {
        assert(g.spec_node(start) == Some(g.spec_get(x, y)));
        assert(view_nodes_from(layers, start, 1) =~= Seq::<T>::empty());
        assert(view_nodes_from(layers, start, 0)[0] == vals[0]);
    }
    assert(view_children_from(layers, coords[0], 0).contains((coords[1], vals[1]))) by {
        assert(view_children_from(layers, start, 1) =~= Seq::<(GridCoord, T)>::empty());
        assert(view_children_from(layers, start, 0) =~= crate::grid::grid_children_at(g, x, y));
        let s0 = crate::grid::grid_children_at(g, x, y);
        let pair = (g.coord_at(x + 1, y), g.spec_get(x + 1, y));
        if 1 <= x {
            assert(s0[1] == pair);
        } else {
            assert(s0[0] == pair);
        }
    }
    assert(view_children_from(layers, coords[1], 0).contains((coords[2], vals[2]))) by {
        assert(mid.x() == x + 1 && mid.y() == y);
        assert(view_children_from(layers, mid, 1) =~= Seq::<(GridCoord, T)>::empty());
        assert(view_children_from(layers, mid, 0) =~= crate::grid::grid_children_at(g, x + 1, y));
        let s1 = crate::grid::grid_children_at(g, x + 1, y);
        let pair = (g.coord_at(x + 2, y), g.spec_get(x + 2, y));
        assert(s1[1] == pair);
    }
    assert(chain_connected::<T, Grid<T>>(layers, coords, vals)) by {
        assert forall|i: int|
            1 <= i < coords.len() implies #[trigger] view_children_from(
            layers,
            coords[i - 1],
            0,
        ).contains((coords[i], vals[i])) by {
            if i == 1 {
            } else {
                assert(i == 2);
            }
        }
    }
    lemma_chain_cost_uniform(getter, vals, w);
    assert(chain_cost::<T, C, G>(getter, vals) == 2 * w);
    assert(is_route::<T, C, G, Grid<T>>(layers, getter, start, end, 2 * w));
}

} // verus!
