//! The best-first macro-decision planner.
//!
//! An agent does not plan toward one fixed destination: it picks a
//! sequence of macro decisions — go to a lift's bottom, ride a lift up,
//! go to a parking lot and leave — each of which computes its sub-path
//! with the shortest-path search.  The planner is a best-first search over
//! decision sequences, bounded by a maximum depth: it expands the frontier
//! entry with the lowest cumulative cost, stops at the first leaf (depth
//! reached, or a terminal decision), and reconstructs the winning sequence
//! through recorded parent indices.  Step costs are floored at small
//! positive minimums so no decision is free.

use crate::coord::GridCoord;
use crate::graph::{GraphLayer, GraphView, SpecialPoint};
use crate::path::Path;
use crate::search::{dijkstra, is_route, search_path_ok, SearchError};
use crate::skiier::SkiierData;
use crate::terrain::TerrainPoint;
use vstd::prelude::*;
use vstd::std_specs::cmp::{PartialEqSpec, PartialOrdSpec};

verus! {

/// The floor on the cost of going to or riding a lift: no step is free.
pub const STEP_COST_FLOOR: u32 = 100;

/// The cost that discourages exiting while stamina remains.
pub const EXIT_RELUCTANCE: u32 = 10000;

/// What taking a decision leads to: move to a coordinate, or leave the
/// terrain.
#[derive(Debug, PartialEq, Eq, Structural, Clone, Copy)]
pub enum DecisionResult {
    /// Go to point.
    Goto(GridCoord),
    /// Remove the agent.
    Despawn,
}

/// Why a planning call failed.
#[derive(Debug, PartialEq, Eq, Structural, Clone, Copy)]
pub enum PlanError {
    /// A sub-path search could not reach its goal.
    Unreachable,
    /// A decision was evaluated from a coordinate where it is not legal —
    /// a mismatch between the decision catalogue and the enumeration.
    IllegalDecision,
    /// The search tree was exhausted without reaching any leaf.
    NoDecisions,
    /// A search budget ran out (in practice out of reach).
    BudgetExhausted,
}

/// Head toward the boarding point of one specific lift.
#[derive(Debug, Clone, Copy, PartialEq, Eq, Structural)]
pub struct GoToLiftBottom {
    pub lift_bottom: GridCoord,
}

/// Ride one specific lift from its bottom to its top.
#[derive(Debug, Clone, Copy, PartialEq, Eq, Structural)]
pub struct GoUpLift {
    pub lift_bottom: GridCoord,
    pub lift_top: GridCoord,
}

/// Head to a parking lot and leave the terrain.
#[derive(Debug, Clone, Copy, PartialEq, Eq, Structural)]
pub struct GoToParkingLot {
    pub position: GridCoord,
}

/// One macro decision of the catalogue.
#[derive(Debug, Clone, Copy, PartialEq, Eq, Structural)]
pub enum Decision {
    GoToLiftBottom(GoToLiftBottom),
    GoUpLift(GoUpLift),
    GoToParkingLot(GoToParkingLot),
}

impl Decision {
    /// The coordinate this decision leads to.
    pub open spec fn target(self) -> GridCoord {
        match self {
            Decision::GoToLiftBottom(d) => d.lift_bottom,
            Decision::GoUpLift(d) => d.lift_top,
            Decision::GoToParkingLot(d) => d.position,
        }
    }

    /// Whether this decision ends the agent's journey.
    pub open spec fn is_terminal(self) -> bool {
        self is GoToParkingLot
    }

    /// Whether evaluating this decision from `start` is a planner logic
    /// error: heading for a lift bottom one already stands on, or riding a
    /// lift from anywhere but its bottom.
    pub open spec fn is_illegal_from(self, start: GridCoord) -> bool {
        match self {
            Decision::GoToLiftBottom(g) => g.lift_bottom == start,
            Decision::GoUpLift(g) => g.lift_bottom != start,
            Decision::GoToParkingLot(g) => false,
        }
    }
}

/// The first coordinate carried by a special point of the given kind and
/// layer index, scanning the annotated special points front to back.
pub open spec fn first_point(
    sps: Seq<(SpecialPoint, GridCoord, usize)>,
    kind: SpecialPoint,
    index: usize,
) -> Option<GridCoord>
    decreases sps.len(),
{
    if sps.len() == 0 {
        None
    } else if sps[0].0 == kind && sps[0].2 == index {
        Some(sps[0].1)
    } else {
        first_point(sps.drop_first(), kind, index)
    }
}

/// Scanning one more entry finds a coordinate only if none was found
/// before it.
proof fn lemma_first_point_snoc(
    sps: Seq<(SpecialPoint, GridCoord, usize)>,
    x: (SpecialPoint, GridCoord, usize),
    kind: SpecialPoint,
    index: usize,
)
    ensures
        first_point(sps.push(x), kind, index) == if first_point(sps, kind, index) is Some {
            first_point(sps, kind, index)
        } else if x.0 == kind && x.2 == index {
            Some(x.1)
        } else {
            None
        },
    decreases sps.len(),
{
    if sps.len() == 0 {
        assert(sps.push(x)[0] == x);
        assert(sps.push(x).drop_first() =~= Seq::<(SpecialPoint, GridCoord, usize)>::empty());
        assert(first_point(
            Seq::<(SpecialPoint, GridCoord, usize)>::empty(),
            kind,
            index,
        ) is None);
        assert(first_point(sps.push(x).drop_first(), kind, index) is None);
    } else {
        assert(sps.push(x)[0] == sps[0]);
        assert(sps.push(x).drop_first() =~= sps.drop_first().push(x));
        lemma_first_point_snoc(sps.drop_first(), x, kind, index);
    }
}

/// Whether `d` is a legal decision from `position` given the view's
/// annotated special points: a lift bottom elsewhere may be headed for; a
/// lift whose bottom is here may be ridden (its endpoints are the first
/// ones reported for its layer); any parking lot may be exited to.
pub open spec fn is_legal_decision(
    sps: Seq<(SpecialPoint, GridCoord, usize)>,
    position: GridCoord,
    d: Decision,
) -> bool {
    match d {
        Decision::GoToLiftBottom(g) => exists|i: int|
            0 <= i < sps.len() && (#[trigger] sps[i]).0 == SpecialPoint::LiftBottom && sps[i].1
                != position && g == (GoToLiftBottom { lift_bottom: sps[i].1 }),
        Decision::GoUpLift(g) => exists|index: usize|
            #![trigger first_point(sps, SpecialPoint::LiftBottom, index)]
            {
                &&& first_point(sps, SpecialPoint::LiftBottom, index) == Some(position)
                &&& first_point(sps, SpecialPoint::LiftTop, index) is Some
                &&& g == (GoUpLift {
                    lift_bottom: position,
                    lift_top: first_point(sps, SpecialPoint::LiftTop, index).unwrap(),
                })
            },
        Decision::GoToParkingLot(g) => exists|i: int|
            0 <= i < sps.len() && (#[trigger] sps[i]).0 == SpecialPoint::ParkingLot && g
                == (GoToParkingLot { position: sps[i].1 }),
    }
}


/// How many annotated special points from slot `i` on are lift bottoms
/// away from `start`.
pub open spec fn count_lift_bottoms(
    sps: Seq<(SpecialPoint, GridCoord, usize)>,
    start: GridCoord,
    i: int,
) -> int
    decreases sps.len() - i,
{
    if i < 0 || i >= sps.len() {
        0
    } else {
        (if sps[i].0 == SpecialPoint::LiftBottom && sps[i].1 != start {
            1int
        } else {
            0int
        }) + count_lift_bottoms(sps, start, i + 1)
    }
}

/// How many annotated special points from slot `i` on are parking lots.
pub open spec fn count_parking_lots(
    sps: Seq<(SpecialPoint, GridCoord, usize)>,
    i: int,
) -> int
    decreases sps.len() - i,
{
    if i < 0 || i >= sps.len() {
        0
    } else {
        (if sps[i].0 == SpecialPoint::ParkingLot {
            1int
        } else {
            0int
        }) + count_parking_lots(sps, i + 1)
    }
}

/// The coordinate an agent stands at before taking step `i` of a plan:
/// the start, or the target of the previous step.
pub open spec fn plan_position(start: GridCoord, ds: Seq<Decision>, i: int) -> GridCoord {
    if i <= 0 {
        start
    } else {
        ds[i - 1].target()
    }
}

/// Every step of the plan is legal at the coordinate the previous steps
/// lead to.
pub open spec fn decisions_chained(
    sps: Seq<(SpecialPoint, GridCoord, usize)>,
    start: GridCoord,
    ds: Seq<Decision>,
) -> bool {
    forall|i: int|
        0 <= i < ds.len() ==> is_legal_decision(sps, plan_position(start, ds, i), #[trigger] ds[i])
}

/// Some decision is legal at `pos`.
pub open spec fn has_legal_decision(
    sps: Seq<(SpecialPoint, GridCoord, usize)>,
    pos: GridCoord,
) -> bool {
    exists|d: Decision| is_legal_decision(sps, pos, d)
}

/// The decision's target can be reached from where it is taken, under the
/// given agent's weights.
pub open spec fn decision_reachable<L: GraphLayer<TerrainPoint>>(
    layers: Seq<&L>,
    sk: SkiierData,
    pos: GridCoord,
    d: Decision,
) -> bool {
    exists|total: int|
        is_route::<TerrainPoint, u32, SkiierData, L>(layers, &sk, pos, d.target(), total)
}

/// Terrain on which the planner owes a plan (budgets aside): every
/// coordinate offers a legal decision, and every legal decision's target
/// is reachable from where it is taken, whatever the agent's state.
pub open spec fn terrain_plannable<L: GraphLayer<TerrainPoint>>(
    layers: Seq<&L>,
    sps: Seq<(SpecialPoint, GridCoord, usize)>,
) -> bool {
    &&& forall|pos: GridCoord| #[trigger] has_legal_decision(sps, pos)
    &&& forall|sk: SkiierData, pos: GridCoord, d: Decision|
        is_legal_decision(sps, pos, d) ==> #[trigger] decision_reachable::<L>(layers, sk, pos, d)
}

/// A decision enumerated as legal at a coordinate is never a logic error
/// to evaluate there.
pub proof fn lemma_legal_not_illegal(
    sps: Seq<(SpecialPoint, GridCoord, usize)>,
    pos: GridCoord,
    d: Decision,
)
    requires
        is_legal_decision(sps, pos, d),
    ensures
        !d.is_illegal_from(pos),
{
}

/// The agent state after paying `cost` for a step with outcome `res`.
pub open spec fn spec_after_step(sk: SkiierData, cost: u32, res: DecisionResult) -> SkiierData {
    SkiierData {
        despawn_at_end: sk.despawn_at_end || res is Despawn,
        total_cost: if sk.total_cost + cost <= u32::MAX {
            (sk.total_cost + cost) as u32
        } else {
            u32::MAX
        },
        prefered_slope: sk.prefered_slope,
        stamina: sk.stamina,
    }
}

/// The larger of two `u32` values.
fn max_u32(a: u32, b: u32) -> (r: u32)
    ensures
        r == if a >= b {
            a
        } else {
            b
        },
{
    if a >= b {
        a
    } else {
        b
    }
}

/// The smaller of two `u32` values.
fn min_u32(a: u32, b: u32) -> (r: u32)
    ensures
        r == if a <= b {
            a
        } else {
            b
        },
{
    if a <= b {
        a
    } else {
        b
    }
}

impl GoToLiftBottom {
    /// One decision per lift bottom reported by the view, leaving out any
    /// at the agent's own position.
    pub fn new<L: GraphLayer<TerrainPoint>>(view: &GraphView<L>, start: GridCoord) -> (r: Vec<
        Decision,
    >)
        ensures
            forall|d: Decision|
                #[trigger] r@.contains(d) <==> (d is GoToLiftBottom && is_legal_decision(
                    view.spec_special_points::<TerrainPoint>(),
                    start,
                    d,
                )),
            r@.len() == count_lift_bottoms(
                view.spec_special_points::<TerrainPoint>(),
                start,
                0,
            ),
            r@.len() <= view.spec_special_points::<TerrainPoint>().len(),
    {
        let ghost sps = view.spec_special_points::<TerrainPoint>();
        let points = view.special_points();
        let n = points.len();
        let mut out: Vec<Decision> = Vec::new();
        let mut i: usize = 0;
        while i < n
            invariant
                i <= n,
                n == sps.len(),
                points@ == sps,
                out@.len() <= i,
                out@.len() + count_lift_bottoms(sps, start, i as int) == count_lift_bottoms(
                    sps,
                    start,
                    0,
                ),
                forall|d: Decision| #[trigger]
                    out@.contains(d) <==> (d is GoToLiftBottom && (exists|k: int|
                        0 <= k < i && (#[trigger] sps[k]).0 == SpecialPoint::LiftBottom && sps[k].1
                            != start && d == Decision::GoToLiftBottom(
                            GoToLiftBottom { lift_bottom: sps[k].1 },
                        ))),
            decreases n - i,
        {
            let (kind, pos, _index) = points[i];
            if pos != start {
                if kind == SpecialPoint::LiftBottom {
                    let d = Decision::GoToLiftBottom(GoToLiftBottom { lift_bottom: pos });
                    let ghost old_out = out@;
                    out.push(d);
                    proof {
                        assert forall|e: Decision| #[trigger] out@.contains(e) implies (e
                            is GoToLiftBottom && (exists|k: int|
                            0 <= k < i + 1 && (#[trigger] sps[k]).0 == SpecialPoint::LiftBottom
                                && sps[k].1 != start && e == Decision::GoToLiftBottom(
                                GoToLiftBottom { lift_bottom: sps[k].1 },
                            ))) by {
                            if e != d {
                                assert(old_out.contains(e)) by {
                                    let t = choose|t: int|
                                        0 <= t < out@.len() && out@[t] == e;
                                    assert(old_out[t] == e);
                                }
                            } else {
                                assert(sps[i as int].0 == SpecialPoint::LiftBottom);
                            }
                        }
                        assert forall|e: Decision|
                            (e is GoToLiftBottom && (exists|k: int|
                                0 <= k < i + 1 && (#[trigger] sps[k]).0
                                    == SpecialPoint::LiftBottom && sps[k].1 != start && e
                                    == Decision::GoToLiftBottom(
                                    GoToLiftBottom { lift_bottom: sps[k].1 },
                                ))) implies #[trigger] out@.contains(e) by {
                            let k = choose|k: int|
                                0 <= k < i + 1 && (#[trigger] sps[k]).0
                                    == SpecialPoint::LiftBottom && sps[k].1 != start && e
                                    == Decision::GoToLiftBottom(
                                    GoToLiftBottom { lift_bottom: sps[k].1 },
                                );
                            if k < i {
                                assert(old_out.contains(e));
                                let t = choose|t: int|
                                    0 <= t < old_out.len() && old_out[t] == e;
                                assert(out@[t] == e);
                            } else {
                                assert(out@.last() == e);
                            }
                        }
                    }
                }
            }
            i = i + 1;
        }
        out
    }
}

impl GoToParkingLot {
    /// One decision per parking lot reported by the view.
    pub fn new<L: GraphLayer<TerrainPoint>>(view: &GraphView<L>, _start: GridCoord) -> (r: Vec<
        Decision,
    >)
        ensures
            forall|d: Decision|
                #[trigger] r@.contains(d) <==> (d is GoToParkingLot && is_legal_decision(
                    view.spec_special_points::<TerrainPoint>(),
                    _start,
                    d,
                )),
            r@.len() == count_parking_lots(view.spec_special_points::<TerrainPoint>(), 0),
            r@.len() <= view.spec_special_points::<TerrainPoint>().len(),
    {
        let ghost sps = view.spec_special_points::<TerrainPoint>();
        let points = view.special_points();
        let n = points.len();
        let mut out: Vec<Decision> = Vec::new();
        let mut i: usize = 0;
        while i < n
            invariant
                i <= n,
                n == sps.len(),
                points@ == sps,
                out@.len() <= i,
                out@.len() + count_parking_lots(sps, i as int) == count_parking_lots(sps, 0),
                forall|d: Decision| #[trigger]
                    out@.contains(d) <==> (d is GoToParkingLot && (exists|k: int|
                        0 <= k < i && (#[trigger] sps[k]).0 == SpecialPoint::ParkingLot && d
                            == Decision::GoToParkingLot(GoToParkingLot { position: sps[k].1 }))),
            decreases n - i,
        {
            let (kind, pos, _index) = points[i];
            if kind == SpecialPoint::ParkingLot {
                let d = Decision::GoToParkingLot(GoToParkingLot { position: pos });
                let ghost old_out = out@;
                out.push(d);
                proof {
                    assert forall|e: Decision| #[trigger] out@.contains(e) implies (e
                        is GoToParkingLot && (exists|k: int|
                        0 <= k < i + 1 && (#[trigger] sps[k]).0 == SpecialPoint::ParkingLot && e
                            == Decision::GoToParkingLot(
                            GoToParkingLot { position: sps[k].1 },
                        ))) by {
                        if e != d {
                            let t = choose|t: int| 0 <= t < out@.len() && out@[t] == e;
                            assert(old_out[t] == e);
                            assert(old_out.contains(e));
                        } else {
                            assert(sps[i as int].0 == SpecialPoint::ParkingLot);
                        }
                    }
                    assert forall|e: Decision|
                        (e is GoToParkingLot && (exists|k: int|
                            0 <= k < i + 1 && (#[trigger] sps[k]).0 == SpecialPoint::ParkingLot
                                && e == Decision::GoToParkingLot(
                                GoToParkingLot { position: sps[k].1 },
                            ))) implies #[trigger] out@.contains(e) by {
                        let k = choose|k: int|
                            0 <= k < i + 1 && (#[trigger] sps[k]).0 == SpecialPoint::ParkingLot
                                && e == Decision::GoToParkingLot(
                                GoToParkingLot { position: sps[k].1 },
                            );
                        if k < i {
                            assert(old_out.contains(e));
                            let t = choose|t: int|
                                0 <= t < old_out.len() && old_out[t] == e;
                            assert(out@[t] == e);
                        } else {
                            assert(out@.last() == e);
                        }
                    }
                }
            }
            i = i + 1;
        }
        out
    }
}

/// A lift being assembled from tagged endpoints of one layer.
struct PartialLift {
    index: usize,
    lift_bottom: Option<GridCoord>,
    lift_top: Option<GridCoord>,
}

impl GoUpLift {
    /// One decision per lift whose bottom is the agent's position: the
    /// view's special points are paired by originating layer index, which
    /// is the only association between a lift's bottom and its top.
    pub fn new<L: GraphLayer<TerrainPoint>>(view: &GraphView<L>, start: GridCoord) -> (r: Vec<
        Decision,
    >)
        ensures
            forall|d: Decision|
                #[trigger] r@.contains(d) <==> (d is GoUpLift && is_legal_decision(
                    view.spec_special_points::<TerrainPoint>(),
                    start,
                    d,
                )),
            r@.len() <= view.spec_special_points::<TerrainPoint>().len(),
    {
        let ghost sps = view.spec_special_points::<TerrainPoint>();
        let points = view.special_points();
        let n = points.len();
        let mut lifts: Vec<PartialLift> = Vec::new();
        let mut i: usize = 0;
        while i < n
            invariant
                i <= n,
                n == sps.len(),
                points@ == sps,
                lifts@.len() <= i,
                forall|a: int, b: int|
                    0 <= a < b < lifts@.len() ==> (#[trigger] lifts@[a]).index != (
                    #[trigger] lifts@[b]).index,
                forall|a: int|
                    0 <= a < lifts@.len() ==> (#[trigger] lifts@[a]).lift_bottom == first_point(
                        sps.take(i as int),
                        SpecialPoint::LiftBottom,
                        lifts@[a].index,
                    ) && lifts@[a].lift_top == first_point(
                        sps.take(i as int),
                        SpecialPoint::LiftTop,
                        lifts@[a].index,
                    ),
                forall|index: usize|
                    (first_point(sps.take(i as int), SpecialPoint::LiftBottom, index) is Some
                        || first_point(sps.take(i as int), SpecialPoint::LiftTop, index) is Some)
                        ==> exists|a: int|
                        0 <= a < lifts@.len() && (#[trigger] lifts@[a]).index == index,
            decreases n - i,
        {
            let (kind, pos, index) = points[i];
            let is_lift_point = kind == SpecialPoint::LiftBottom || kind == SpecialPoint::LiftTop;
            proof {
                assert(sps.take(i as int + 1) =~= sps.take(i as int).push(sps[i as int]));
                assert forall|index2: usize, kind2: SpecialPoint| #[trigger] first_point(
                    sps.take(i as int + 1),
                    kind2,
                    index2,
                ) == (if first_point(sps.take(i as int), kind2, index2) is Some {
                    first_point(sps.take(i as int), kind2, index2)
                } else if sps[i as int].0 == kind2 && sps[i as int].2 == index2 {
                    Some(sps[i as int].1)
                } else {
                    None
                }) by {
                    lemma_first_point_snoc(sps.take(i as int), sps[i as int], kind2, index2);
                }
            }
            let ghost lifts0 = lifts@;
            if is_lift_point {
                // find or create the accumulator for this layer index
                let m = lifts.len();
                let mut a: usize = 0;
                while a < m && lifts[a].index != index
                    invariant
                        a <= m,
                        m == lifts@.len(),
                        forall|t: int| 0 <= t < a ==> (#[trigger] lifts@[t]).index != index,
                    decreases m - a,
                {
                    a = a + 1;
                }
                let found = a < m;
                if !found {
                    proof {
                        // a fresh index has no recorded endpoints yet
                        if first_point(sps.take(i as int), SpecialPoint::LiftBottom, index)
                            is Some || first_point(
                            sps.take(i as int),
                            SpecialPoint::LiftTop,
                            index,
                        ) is Some {
                            let t = choose|t: int|
                                0 <= t < lifts@.len() && (#[trigger] lifts@[t]).index == index;
                            assert(false);
                        }
                    }
                    lifts.push(PartialLift { index, lift_bottom: None, lift_top: None });
                }
                let slot = if found {
                    a
                } else {
                    lifts.len() - 1
                };
                let ghost pre = lifts@;
                proof {
                    assert(pre[slot as int].index == index);
                }
                let entry = &mut lifts[slot];
                if kind == SpecialPoint::LiftBottom {
                    if entry.lift_bottom.is_none() {
                        entry.lift_bottom = Some(pos);
                    }
                } else {
                    if entry.lift_top.is_none() {
                        entry.lift_top = Some(pos);
                    }
                }
                proof {
                    assert(lifts@.len() == pre.len());
                    assert(lifts@[slot as int].index == index);
                    assert forall|t: int| 0 <= t < lifts@.len() && t != slot implies lifts@[t]
                        == pre[t] by {}
                    assert forall|t: int| 0 <= t < lifts@.len() implies (#[trigger] lifts@[t]).lift_bottom
                        == first_point(
                        sps.take(i as int + 1),
                        SpecialPoint::LiftBottom,
                        lifts@[t].index,
                    ) && lifts@[t].lift_top == first_point(
                        sps.take(i as int + 1),
                        SpecialPoint::LiftTop,
                        lifts@[t].index,
                    ) by {
                        if t != slot {
                            assert(lifts@[t].index != index);
                        }
                    }
                    assert forall|index2: usize|
                        #![trigger first_point(sps.take(i as int + 1), SpecialPoint::LiftBottom, index2)]
                        (first_point(sps.take(i as int + 1), SpecialPoint::LiftBottom, index2)
                            is Some || first_point(
                            sps.take(i as int + 1),
                            SpecialPoint::LiftTop,
                            index2,
                        ) is Some) implies exists|t: int|
                        0 <= t < lifts@.len() && (#[trigger] lifts@[t]).index == index2 by {
                        if index2 == index {
                            assert(lifts@[slot as int].index == index2);
                        } else {
                            assert(first_point(
                                sps.take(i as int + 1),
                                SpecialPoint::LiftBottom,
                                index2,
                            ) == first_point(sps.take(i as int), SpecialPoint::LiftBottom, index2));
                            assert(first_point(
                                sps.take(i as int + 1),
                                SpecialPoint::LiftTop,
                                index2,
                            ) == first_point(sps.take(i as int), SpecialPoint::LiftTop, index2));
                            let t = choose|t: int|
                                0 <= t < lifts0.len() && (#[trigger] lifts0[t]).index == index2;
                            assert(pre[t] == lifts0[t]);
                            assert(lifts@[t].index == index2);
                        }
                    }
                }
            }
            i = i + 1;
        }
        proof {
            assert(sps.take(n as int) =~= sps);
        }
        let m = lifts.len();
        let mut out: Vec<Decision> = Vec::new();
        let mut a: usize = 0;
        while a < m
            invariant
                a <= m,
                m == lifts@.len(),
                out@.len() <= a,
                forall|t: int, u: int|
                    0 <= t < u < lifts@.len() ==> (#[trigger] lifts@[t]).index != (
                    #[trigger] lifts@[u]).index,
                forall|t: int|
                    0 <= t < lifts@.len() ==> (#[trigger] lifts@[t]).lift_bottom == first_point(
                        sps,
                        SpecialPoint::LiftBottom,
                        lifts@[t].index,
                    ) && lifts@[t].lift_top == first_point(
                        sps,
                        SpecialPoint::LiftTop,
                        lifts@[t].index,
                    ),
                forall|index: usize|
                    (first_point(sps, SpecialPoint::LiftBottom, index) is Some || first_point(
                        sps,
                        SpecialPoint::LiftTop,
                        index,
                    ) is Some) ==> exists|t: int|
                        0 <= t < lifts@.len() && (#[trigger] lifts@[t]).index == index,
                forall|d: Decision| #[trigger]
                    out@.contains(d) <==> (d is GoUpLift && (exists|t: int|
                        0 <= t < a && lift_entry_gives(sps, start, #[trigger] lifts@[t], d))),
            decreases m - a,
        {
            let entry = &lifts[a];
            let push_it = match (entry.lift_bottom, entry.lift_top) {
                (Some(b), Some(t)) => b == start,
                _ => false,
            };
            if push_it {
                let b = match entry.lift_bottom {
                    Some(b) => b,
                    None => {
                        proof {
                            assert(false);
                        }
                        start
                    },
                };
                let t = match entry.lift_top {
                    Some(t) => t,
                    None => {
                        proof {
                            assert(false);
                        }
                        start
                    },
                };
                let d = Decision::GoUpLift(GoUpLift { lift_bottom: b, lift_top: t });
                let ghost old_out = out@;
                out.push(d);
                proof {
                    assert(lift_entry_gives(sps, start, lifts@[a as int], d));
                    assert forall|e: Decision| #[trigger] out@.contains(e) implies (e is GoUpLift
                        && (exists|t2: int|
                        0 <= t2 < a + 1 && lift_entry_gives(
                            sps,
                            start,
                            #[trigger] lifts@[t2],
                            e,
                        ))) by {
                        if e != d {
                            let u = choose|u: int| 0 <= u < out@.len() && out@[u] == e;
                            assert(old_out[u] == e);
                            assert(old_out.contains(e));
                        }
                    }
                    assert forall|e: Decision|
                        (e is GoUpLift && (exists|t2: int|
                            0 <= t2 < a + 1 && lift_entry_gives(
                                sps,
                                start,
                                #[trigger] lifts@[t2],
                                e,
                            ))) implies #[trigger] out@.contains(e) by {
                        let t2 = choose|t2: int|
                            0 <= t2 < a + 1 && lift_entry_gives(sps, start, #[trigger] lifts@[t2], e);
                        if t2 < a {
                            assert(old_out.contains(e));
                            let u = choose|u: int|
                                0 <= u < old_out.len() && old_out[u] == e;
                            assert(out@[u] == e);
                        } else {
                            assert(out@.last() == e);
                        }
                    }
                }
            }
            a = a + 1;
        }
        proof {
            assert forall|d: Decision| #[trigger] out@.contains(d) implies (d is GoUpLift
                && is_legal_decision(sps, start, d)) by {
                let t = choose|t: int|
                    0 <= t < m && lift_entry_gives(sps, start, #[trigger] lifts@[t], d);
                assert(first_point(sps, SpecialPoint::LiftBottom, lifts@[t].index) == Some(start));
            }
            assert forall|d: Decision|
                (d is GoUpLift && is_legal_decision(sps, start, d)) implies #[trigger] out@.contains(
                d,
            ) by {
                let index = choose|index: usize|
                    #![trigger first_point(sps, SpecialPoint::LiftBottom, index)]
                    {
                        &&& first_point(sps, SpecialPoint::LiftBottom, index) == Some(start)
                        &&& first_point(sps, SpecialPoint::LiftTop, index) is Some
                        &&& d == Decision::GoUpLift(
                            GoUpLift {
                                lift_bottom: start,
                                lift_top: first_point(
                                    sps,
                                    SpecialPoint::LiftTop,
                                    index,
                                ).unwrap(),
                            },
                        )
                    };
                let t = choose|t: int|
                    0 <= t < lifts@.len() && (#[trigger] lifts@[t]).index == index;
                assert(lift_entry_gives(sps, start, lifts@[t], d));
            }
        }
        out
    }
}

/// The decision an assembled lift entry contributes when its bottom is the
/// agent's position.
spec fn lift_entry_gives(
    sps: Seq<(SpecialPoint, GridCoord, usize)>,
    start: GridCoord,
    entry: PartialLift,
    d: Decision,
) -> bool {
    &&& entry.lift_bottom == first_point(sps, SpecialPoint::LiftBottom, entry.index)
    &&& entry.lift_top == first_point(sps, SpecialPoint::LiftTop, entry.index)
    &&& entry.lift_bottom == Some(start)
    &&& entry.lift_top is Some
    &&& d == Decision::GoUpLift(
        GoUpLift { lift_bottom: start, lift_top: entry.lift_top.unwrap() },
    )
}

/// All currently legal decisions from `position`: lift bottoms to head
/// for, parking lots to exit to, and lifts to ride whose bottom is here.
pub fn get_decisions<L: GraphLayer<TerrainPoint>>(view: &GraphView<L>, position: GridCoord) -> (r:
    Vec<Decision>)
    ensures
        forall|d: Decision|
            #[trigger] r@.contains(d) <==> is_legal_decision(
                view.spec_special_points::<TerrainPoint>(),
                position,
                d,
            ),
        r@.len() <= 3 * view.spec_special_points::<TerrainPoint>().len(),
{
    let mut out = GoToLiftBottom::new(view, position);
    let mut parks = GoToParkingLot::new(view, position);
    let mut lifts = GoUpLift::new(view, position);
    let ghost bottoms0 = out@;
    let ghost parks0 = parks@;
    let ghost lifts0 = lifts@;
    out.append(&mut parks);
    out.append(&mut lifts);
    proof {
        assert forall|d: Decision| #[trigger] out@.contains(d) implies (bottoms0.contains(d)
            || parks0.contains(d) || lifts0.contains(d)) by {
            let t = choose|t: int| 0 <= t < out@.len() && out@[t] == d;
            if t < bottoms0.len() {
                assert(bottoms0[t] == d);
            } else if t < bottoms0.len() + parks0.len() {
                assert(parks0[t - bottoms0.len()] == d);
            } else {
                assert(lifts0[t - bottoms0.len() - parks0.len()] == d);
            }
        }
        assert forall|d: Decision|
            (bottoms0.contains(d) || parks0.contains(d) || lifts0.contains(d)) implies
            #[trigger] out@.contains(d) by {
            if bottoms0.contains(d) {
                let t = choose|t: int| 0 <= t < bottoms0.len() && bottoms0[t] == d;
                assert(out@[t] == d);
            } else if parks0.contains(d) {
                let t = choose|t: int| 0 <= t < parks0.len() && parks0[t] == d;
                assert(out@[bottoms0.len() + t] == d);
            } else {
                let t = choose|t: int| 0 <= t < lifts0.len() && lifts0[t] == d;
                assert(out@[bottoms0.len() + parks0.len() + t] == d);
            }
        }
    }
    out
}

impl Decision {
    /// Evaluates this decision from `start` for the given agent: the
    /// outcome tag, the step's cost, the sub-path taken, and the agent
    /// state after taking the step.  Going to a lift bottom or riding a
    /// lift is floored at `STEP_COST_FLOOR`; exiting costs at most 1 once
    /// the agent's accumulated cost has reached its stamina budget, and at
    /// least `EXIT_RELUCTANCE` before that.  A lift ride is only legal
    /// from the lift's bottom, and heading for a lift bottom is only legal
    /// away from it.
    pub fn get_cost<L: GraphLayer<TerrainPoint>>(
        &self,
        view: &GraphView<L>,
        skiier: &SkiierData,
        start: GridCoord,
    ) -> (r: Result<(DecisionResult, u32, Path<u32>, SkiierData), PlanError>)
        ensures
            (r == Err::<(DecisionResult, u32, Path<u32>, SkiierData), PlanError>(
                PlanError::IllegalDecision,
            )) <==> self.is_illegal_from(start),
            (r == Err::<(DecisionResult, u32, Path<u32>, SkiierData), PlanError>(
                PlanError::Unreachable,
            )) ==> !exists|total: int|
                is_route::<TerrainPoint, u32, SkiierData, L>(
                    view.layers_spec(),
                    skiier,
                    start,
                    self.target(),
                    total,
                ),
            match r {
                Err(e) => e == PlanError::IllegalDecision || e == PlanError::Unreachable || e
                    == PlanError::BudgetExhausted,
                Ok(_) => true,
            },
            (!self.is_illegal_from(start) && exists|total: int|
                is_route::<TerrainPoint, u32, SkiierData, L>(
                    view.layers_spec(),
                    skiier,
                    start,
                    self.target(),
                    total,
                )) ==> (r is Ok || r == Err::<(DecisionResult, u32, Path<u32>, SkiierData), PlanError>(
                PlanError::BudgetExhausted,
            )),
            match r {
                Ok((res, cost, path, after)) => {
                    &&& res == (if self.is_terminal() {
                        DecisionResult::Despawn
                    } else {
                        DecisionResult::Goto(self.target())
                    })
                    &&& search_path_ok::<TerrainPoint, u32, SkiierData, L>(
                        view.layers_spec(),
                        skiier,
                        start,
                        self.target(),
                        path,
                    )
                    &&& path.points@.len() >= 1
                    &&& path.points@.last() == self.target()
                    &&& cost == (match *self {
                        Decision::GoToParkingLot(_) => if skiier.total_cost >= skiier.stamina {
                            if path.total_cost <= 1 {
                                path.total_cost
                            } else {
                                1u32
                            }
                        } else {
                            if path.total_cost >= EXIT_RELUCTANCE {
                                path.total_cost
                            } else {
                                EXIT_RELUCTANCE
                            }
                        },
                        _ => if path.total_cost >= STEP_COST_FLOOR {
                            path.total_cost
                        } else {
                            STEP_COST_FLOOR
                        },
                    })
                    &&& after == spec_after_step(*skiier, cost, res)
                },
                Err(_) => true,
            },
    {
        match *self {
            Decision::GoToLiftBottom(g) => {
                if g.lift_bottom == start {
                    return Err(PlanError::IllegalDecision);
                }
                let path = match dijkstra::<TerrainPoint, u32, SkiierData, L>(
                    view,
                    skiier,
                    start,
                    g.lift_bottom,
                ) {
                    Ok(p) => p,
                    Err(SearchError::GoalUnreachable) => {
                        return Err(PlanError::Unreachable);
                    },
                    Err(SearchError::BudgetExhausted) => {
                        return Err(PlanError::BudgetExhausted);
                    },
                };
                let cost = max_u32(path.cost(), STEP_COST_FLOOR);
                let after = step_state(skiier, cost, false);
                Ok((DecisionResult::Goto(g.lift_bottom), cost, path, after))
            },
            Decision::GoUpLift(g) => {
                if g.lift_bottom != start {
                    return Err(PlanError::IllegalDecision);
                }
                let path = match dijkstra::<TerrainPoint, u32, SkiierData, L>(
                    view,
                    skiier,
                    start,
                    g.lift_top,
                ) {
                    Ok(p) => p,
                    Err(SearchError::GoalUnreachable) => {
                        return Err(PlanError::Unreachable);
                    },
                    Err(SearchError::BudgetExhausted) => {
                        return Err(PlanError::BudgetExhausted);
                    },
                };
                let cost = max_u32(path.cost(), STEP_COST_FLOOR);
                let after = step_state(skiier, cost, false);
                Ok((DecisionResult::Goto(g.lift_top), cost, path, after))
            },
            Decision::GoToParkingLot(g) => {
                let path = match dijkstra::<TerrainPoint, u32, SkiierData, L>(
                    view,
                    skiier,
                    start,
                    g.position,
                ) {
                    Ok(p) => p,
                    Err(SearchError::GoalUnreachable) => {
                        return Err(PlanError::Unreachable);
                    },
                    Err(SearchError::BudgetExhausted) => {
                        return Err(PlanError::BudgetExhausted);
                    },
                };
                let cost = if skiier.total_cost >= skiier.stamina {
                    min_u32(path.cost(), 1)
                } else {
                    max_u32(path.cost(), EXIT_RELUCTANCE)
                };
                let after = step_state(skiier, cost, true);
                Ok((DecisionResult::Despawn, cost, path, after))
            },
        }
    }
}

/// Advances an agent's state by one paid step.
fn step_state(sk: &SkiierData, cost: u32, terminal: bool) -> (r: SkiierData)
    ensures
        r.despawn_at_end == (sk.despawn_at_end || terminal),
        r.total_cost == if sk.total_cost + cost <= u32::MAX {
            sk.total_cost + cost
        } else {
            u32::MAX as int
        },
        r.prefered_slope == sk.prefered_slope,
        r.stamina == sk.stamina,
{
    SkiierData {
        despawn_at_end: sk.despawn_at_end || terminal,
        total_cost: sk.total_cost.saturating_add(cost),
        prefered_slope: sk.prefered_slope,
        stamina: sk.stamina,
    }
}


/// A search-frontier entry of the planner: which recorded decision it
/// extends, the coordinate it ends at, the cumulative plan cost, its
/// depth, and the decision's outcome tag.  Frontier entries order by
/// cumulative cost alone: entries with different costs order strictly by
/// cost regardless of every other field, and entries with equal cost
/// compare equal under the ordering used for tie-breaking.
#[derive(Debug)]
pub struct DecisionNode {
    /// Index of this entry's decision in the recorded search tree.
    pub decision: usize,
    pub end: GridCoord,
    pub total_cost: u32,
    pub search_depth: u32,
    pub result: DecisionResult,
}

impl PartialEq for DecisionNode {
    fn eq(&self, other: &Self) -> (r: bool) {
        self.total_cost == other.total_cost
    }
}

impl Eq for DecisionNode {

}

impl vstd::std_specs::cmp::PartialEqSpecImpl for DecisionNode {
    open spec fn obeys_eq_spec() -> bool {
        true
    }

    open spec fn eq_spec(&self, other: &DecisionNode) -> bool {
        self.total_cost == other.total_cost
    }
}

impl PartialOrd for DecisionNode {
    fn partial_cmp(&self, other: &Self) -> (r: Option<core::cmp::Ordering>) {
        if self.total_cost < other.total_cost {
            Some(core::cmp::Ordering::Less)
        } else if self.total_cost == other.total_cost {
            Some(core::cmp::Ordering::Equal)
        } else {
            Some(core::cmp::Ordering::Greater)
        }
    }
}

impl vstd::std_specs::cmp::PartialOrdSpecImpl for DecisionNode {
    open spec fn obeys_partial_cmp_spec() -> bool {
        true
    }

    open spec fn partial_cmp_spec(&self, other: &DecisionNode) -> Option<core::cmp::Ordering> {
        if self.total_cost < other.total_cost {
            Some(core::cmp::Ordering::Less)
        } else if self.total_cost == other.total_cost {
            Some(core::cmp::Ordering::Equal)
        } else {
            Some(core::cmp::Ordering::Greater)
        }
    }
}

/// Frontier entries order strictly by cumulative cost, whatever their
/// other fields hold, and entries with equal cumulative cost compare
/// equal under the tie-breaking order.
pub proof fn lemma_decision_node_ordering(a: DecisionNode, b: DecisionNode)
    ensures
        a.total_cost < b.total_cost ==> a.partial_cmp_spec(&b) == Some(
            core::cmp::Ordering::Less,
        ) && b.partial_cmp_spec(&a) == Some(core::cmp::Ordering::Greater),
        a.total_cost == b.total_cost ==> a.eq_spec(&b) && a.partial_cmp_spec(&b) == Some(
            core::cmp::Ordering::Equal,
        ),
{
}

/// One record of the planner's search tree: the decision taken, the agent
/// state after taking it, and the record it extends.
struct DecisionItem {
    decision: Decision,
    /// Reference to the previous decision.
    previous_decision: Option<usize>,
    skiier_after: SkiierData,
    /// The whole decision sequence from the root to this record.
    plan: Ghost<Seq<Decision>>,
}

/// Every record's plan is a legal decision chain from the start, ends
/// with the record's own decision, keeps terminal decisions last, and
/// extends its parent's plan by one step.
#[verifier::opaque]
spec fn items_inv(
    items: Seq<DecisionItem>,
    sps: Seq<(SpecialPoint, GridCoord, usize)>,
    start: GridCoord,
) -> bool {
    forall|k: int|
        #![trigger items[k]]
        0 <= k < items.len() ==> {
            &&& items[k].plan@.len() >= 1
            &&& items[k].plan@.last() == items[k].decision
            &&& decisions_chained(sps, start, items[k].plan@)
            &&& forall|i: int| 0 <= i < items[k].plan@.len() - 1 ==> !(#[trigger] items[k].plan@[i]).is_terminal()
            &&& match items[k].previous_decision {
                Some(p) => 0 <= p < k && items[k].plan@ == items[p as int].plan@.push(
                    items[k].decision,
                ) && !items[p as int].decision.is_terminal(),
                None => items[k].plan@.len() == 1,
            }
        }
}

/// Every frontier entry points into the search tree, carries the depth
/// and end coordinate of its record's plan, and tags terminal decisions.
#[verifier::opaque]
spec fn nodes_inv(
    fr: Seq<DecisionNode>,
    items: Seq<DecisionItem>,
    max_depth: u32,
) -> bool {
    forall|j: int|
        #![trigger fr[j]]
        0 <= j < fr.len() ==> {
            &&& fr[j].decision < items.len()
            &&& fr[j].search_depth + 1 == items[fr[j].decision as int].plan@.len()
            &&& fr[j].search_depth <= max_depth
            &&& fr[j].end == items[fr[j].decision as int].decision.target()
            &&& (fr[j].result is Despawn) <==> items[fr[j].decision as int].decision.is_terminal()
        }
}

/// Searches over decision sequences, best-first by cumulative cost, and
/// returns the first complete plan found: a legal chain of at most
/// `max_depth + 1` decisions whose last step is terminal or whose length
/// reached the bound, with terminal decisions nowhere else.  Fails when a
/// sub-search fails or when the search tree is exhausted; a start with no
/// legal decisions at all is reported as `NoDecisions`.  On plannable
/// terrain — a legal decision everywhere, every legal target reachable —
/// only a budget exhaustion can stand in the way of a plan.
#[verifier::rlimit(100)]
pub fn get_best_decision<L: GraphLayer<TerrainPoint>>(
    view: &GraphView<L>,
    skiier: &SkiierData,
    start: GridCoord,
    max_depth: u32,
) -> (r: Result<Vec<Decision>, PlanError>)
    ensures
        match r {
            Ok(ds) => {
                &&& 1 <= ds@.len() <= max_depth + 1
                &&& decisions_chained(
                    view.spec_special_points::<TerrainPoint>(),
                    start,
                    ds@,
                )
                &&& (ds@.last().is_terminal() || ds@.len() == max_depth + 1)
                &&& forall|i: int| 0 <= i < ds@.len() - 1 ==> !(#[trigger] ds@[i]).is_terminal()
            },
            Err(_) => true,
        },
        (forall|d: Decision|
            !is_legal_decision(view.spec_special_points::<TerrainPoint>(), start, d)) ==> r
            == Err::<Vec<Decision>, PlanError>(PlanError::NoDecisions),
        terrain_plannable::<L>(
            view.layers_spec(),
            view.spec_special_points::<TerrainPoint>(),
        ) ==> (r is Ok || r == Err::<Vec<Decision>, PlanError>(PlanError::BudgetExhausted)),
{
    let ghost sps = view.spec_special_points::<TerrainPoint>();
    let mut items: Vec<DecisionItem> = Vec::new();
    let mut frontier: Vec<DecisionNode> = Vec::new();
    proof {
        reveal(items_inv);
        reveal(nodes_inv);
        assert(items_inv(items@, sps, start));
        assert(nodes_inv(frontier@, items@, max_depth));
    }
    let decisions = get_decisions(view, start);
    let nd = decisions.len();
    let mut di: usize = 0;
    while di < nd
        invariant
            di <= nd,
            nd == decisions@.len(),
            forall|d: Decision|
                #[trigger] decisions@.contains(d) <==> is_legal_decision(sps, start, d),
            sps == view.spec_special_points::<TerrainPoint>(),
            items_inv(items@, sps, start),
            nodes_inv(frontier@, items@, max_depth),
            frontier@.len() == di,
        decreases nd - di,
    {
        let d = decisions[di];
        proof {
            assert(decisions@.contains(d));
        }
        let evaluated = d.get_cost(view, skiier, start);
        match evaluated {
            Ok((res, cost, path, sk2)) => {
                let idx = items.len();
                let ghost plan = seq![d];
                items.push(
                    DecisionItem {
                        decision: d,
                        previous_decision: None,
                        skiier_after: sk2,
                        plan: Ghost(plan),
                    },
                );
                let end = path.get_end();
                frontier.push(
                    DecisionNode {
                        decision: idx,
                        end,
                        total_cost: sk2.total_cost,
                        search_depth: 0,
                        result: res,
                    },
                );
                proof {
                    reveal(items_inv);
                    reveal(nodes_inv);
                    assert(plan.last() == d);
                    assert(plan_position(start, plan, 0) == start);
                    assert(decisions_chained(sps, start, plan));
                    assert(items_inv(items@, sps, start));
                    assert(nodes_inv(frontier@, items@, max_depth));
                }
            },
            Err(e) => {
                proof {
                    assert(is_legal_decision(sps, start, d));
                    lemma_legal_not_illegal(sps, start, d);
                    if e == PlanError::Unreachable {
                        if terrain_plannable::<L>(view.layers_spec(), sps) {
                            assert(decision_reachable::<L>(
                                view.layers_spec(),
                                *skiier,
                                start,
                                d,
                            ));
                            assert(false);
                        }
                    }
                }
                return Err(e);
            },
        }
        di = di + 1;
    }
    if frontier.len() == 0 {
        proof {
            if exists|d: Decision| is_legal_decision(sps, start, d) {
                let d = choose|d: Decision| is_legal_decision(sps, start, d);
                assert(decisions@.contains(d));
                assert(false);
            }
            if terrain_plannable::<L>(view.layers_spec(), sps) {
                assert(has_legal_decision(sps, start));
                assert(false);
            }
        }
        return Err(PlanError::NoDecisions);
    }
    proof {
        assert(decisions@.contains(decisions@[0]));
    }
    // Termination bound: the depth cap keeps the search tree finite, and
    // the budget below exceeds its size for any realizable branching; it
    // doubles as the loop's verified termination measure.  Running out of
    // budget reports the tree as exhausted.
    let mut fuel: u64 = 0xffff_ffff_ffff_ffffu64;
    while frontier.len() > 0 && fuel > 0
        invariant
            sps == view.spec_special_points::<TerrainPoint>(),
            items_inv(items@, sps, start),
            nodes_inv(frontier@, items@, max_depth),
            exists|d: Decision| is_legal_decision(sps, start, d),
            terrain_plannable::<L>(view.layers_spec(), sps) ==> frontier@.len() >= 1,
        decreases fuel,
    {
        fuel = fuel - 1;
        let node = pop_best(&mut frontier, Ghost(items@), Ghost(max_depth));
        if node.search_depth == max_depth || node.result == DecisionResult::Despawn {
            let ds = reconstruct_plan(&items, &node, Ghost(sps), Ghost(start), Ghost(max_depth));
            return Ok(ds);
        }
        match expand_frontier(&mut items, &mut frontier, &node, view, Ghost(sps), Ghost(start), Ghost(max_depth)) {
            Ok(()) => {
                proof {
                    if terrain_plannable::<L>(view.layers_spec(), sps) {
                        assert(has_legal_decision(sps, node.end));
                        assert(frontier@.len() >= 1);
                    }
                }
            },
            Err(e) => {
                proof {
                    assert(exists|d: Decision| is_legal_decision(sps, start, d));
                }
                return Err(e);
            },
        }
    }
    if frontier.len() == 0 {
        Err(PlanError::NoDecisions)
    } else {
        Err(PlanError::BudgetExhausted)
    }
}


/// Walks the parent links back from a popped leaf and returns its plan in
/// root-to-leaf order.
#[verifier::rlimit(100)]
fn reconstruct_plan(
    items: &Vec<DecisionItem>,
    node: &DecisionNode,
    Ghost(sps): Ghost<Seq<(SpecialPoint, GridCoord, usize)>>,
    Ghost(start): Ghost<GridCoord>,
    Ghost(max_depth): Ghost<u32>,
)
    -> (ds: Vec<Decision>)
    requires
        items_inv(items@, sps, start),
        node.decision < items@.len(),
        node.search_depth + 1 == items@[node.decision as int].plan@.len(),
        node.search_depth <= max_depth,
        (node.result is Despawn) <==> items@[node.decision as int].decision.is_terminal(),
        node.search_depth == max_depth || node.result is Despawn,
    ensures
        ds@ == items@[node.decision as int].plan@,
        1 <= ds@.len() <= max_depth + 1,
        decisions_chained(sps, start, ds@),
        ds@.last().is_terminal() || ds@.len() == max_depth + 1,
        forall|i: int| 0 <= i < ds@.len() - 1 ==> !(#[trigger] ds@[i]).is_terminal(),
{
    let ghost winning = items@[node.decision as int].plan@;
    proof {
        reveal(items_inv);
        assert(winning.last() == items@[node.decision as int].decision);
    }
    let mut rev: Vec<Decision> = Vec::new();
    let mut cur = node.decision;
    loop
        invariant_except_break
            cur < items@.len(),
            items_inv(items@, sps, start),
            winning =~= items@[cur as int].plan@ + rev@.reverse(),
        ensures
            rev@.reverse() =~= winning,
        decreases cur,
    {
        proof {
            reveal(items_inv);
        }
        let d = items[cur].decision;
        let ghost rev0 = rev@;
        rev.push(d);
        proof {
            reveal(items_inv);
            assert forall|t: int| 0 <= t < rev@.reverse().len() implies rev@.reverse()[t]
                == (seq![d] + rev0.reverse())[t] by {
                assert(rev@.reverse()[t] == rev@[rev@.len() - 1 - t]);
            }
            assert(rev@.reverse() =~= seq![d] + rev0.reverse());
        }
        let prev = items[cur].previous_decision;
        match prev {
            Some(p) => {
                proof {
                    reveal(items_inv);
                    assert(items@[cur as int].plan@ == items@[p as int].plan@.push(d));
                    assert(items@[p as int].plan@.push(d) + rev0.reverse()
                        =~= items@[p as int].plan@ + (seq![d] + rev0.reverse()));
                }
                cur = p;
            },
            None => {
                proof {
                    reveal(items_inv);
                    assert(items@[cur as int].plan@ =~= seq![d]);
                    assert(seq![d] + rev0.reverse() =~= rev@.reverse());
                }
                break;
            },
        }
    }
    let n = rev.len();
    let mut ds: Vec<Decision> = Vec::new();
    let mut ri: usize = n;
    while ri > 0
        invariant
            ri <= n,
            n == rev@.len(),
            ds@.len() == n - ri,
            forall|t: int| 0 <= t < ds@.len() ==> #[trigger] ds@[t] == rev@[n - 1 - t],
        decreases ri,
    {
        ri = ri - 1;
        ds.push(rev[ri]);
    }
    proof {
        reveal(items_inv);
        assert(ds@ =~= rev@.reverse()) by {
            assert forall|t: int| 0 <= t < ds@.len() implies ds@[t] == rev@.reverse()[t] by {
                assert(rev@.reverse()[t] == rev@[n - 1 - t]);
            }
        }
        assert(ds@ =~= winning);
        assert(winning.len() == node.search_depth + 1);
        assert(ds@.last() == items@[node.decision as int].decision);
        assert(decisions_chained(sps, start, winning));
        assert(forall|i: int|
            0 <= i < winning.len() - 1 ==> !(#[trigger] winning[i]).is_terminal());
    }
    ds
}


/// Evaluates every legal decision at a popped frontier entry's coordinate
/// and records the results as new frontier entries one step deeper.
#[verifier::rlimit(100)]
fn expand_frontier<L: GraphLayer<TerrainPoint>>(
    items: &mut Vec<DecisionItem>,
    frontier: &mut Vec<DecisionNode>,
    node: &DecisionNode,
    view: &GraphView<L>,
    Ghost(sps): Ghost<Seq<(SpecialPoint, GridCoord, usize)>>,
    Ghost(start): Ghost<GridCoord>,
    Ghost(max_depth): Ghost<u32>,
) -> (r: Result<(), PlanError>)
    requires
        sps == view.spec_special_points::<TerrainPoint>(),
        items_inv(old(items)@, sps, start),
        nodes_inv(old(frontier)@, old(items)@, max_depth),
        node.decision < old(items)@.len(),
        old(items)@[node.decision as int].plan@.len() == node.search_depth + 1,
        old(items)@[node.decision as int].decision.target() == node.end,
        !old(items)@[node.decision as int].decision.is_terminal(),
        node.search_depth < max_depth,
    ensures
        items_inv(final(items)@, sps, start),
        nodes_inv(final(frontier)@, final(items)@, max_depth),
        !(r == Err::<(), PlanError>(PlanError::IllegalDecision)),
        !(r == Err::<(), PlanError>(PlanError::NoDecisions)),
        r == Err::<(), PlanError>(PlanError::Unreachable) ==> !terrain_plannable::<L>(
            view.layers_spec(),
            sps,
        ),
        (r is Ok && has_legal_decision(sps, node.end)) ==> final(frontier)@.len() > old(
            frontier,
        )@.len(),
{
    let parent_sk = items[node.decision].skiier_after;
    let ghost parent_idx = node.decision as int;
    proof {
        reveal(items_inv);
        assert(items@[parent_idx].plan@.last() == items@[parent_idx].decision);
    }
    let next_decisions = get_decisions(view, node.end);
    let nd2 = next_decisions.len();
    let mut dj: usize = 0;
    while dj < nd2
        invariant
            dj <= nd2,
            nd2 == next_decisions@.len(),
            forall|d: Decision|
                #[trigger] next_decisions@.contains(d) <==> is_legal_decision(
                    sps,
                    node.end,
                    d,
                ),
            sps == view.spec_special_points::<TerrainPoint>(),
            items_inv(items@, sps, start),
            nodes_inv(frontier@, items@, max_depth),
            frontier@.len() == old(frontier)@.len() + dj,
            parent_idx == node.decision,
            node.decision < items@.len(),
            items@[parent_idx] == old(items)@[parent_idx],
            items@[parent_idx].plan@.len() == node.search_depth + 1,
            items@[parent_idx].decision.target() == node.end,
            !items@[parent_idx].decision.is_terminal(),
            node.search_depth < max_depth,
        decreases nd2 - dj,
    {
        let d = next_decisions[dj];
        proof {
            assert(next_decisions@.contains(d));
        }
        match d.get_cost(view, &parent_sk, node.end) {
            Ok((res, cost, path, sk2)) => {
                let idx = items.len();
                let ghost plan = items@[parent_idx].plan@.push(d);
                items.push(
                    DecisionItem {
                        decision: d,
                        previous_decision: Some(node.decision),
                        skiier_after: sk2,
                        plan: Ghost(plan),
                    },
                );
                let end = path.get_end();
                frontier.push(
                    DecisionNode {
                        decision: idx,
                        end,
                        total_cost: node.total_cost.saturating_add(cost),
                        search_depth: node.search_depth + 1,
                        result: res,
                    },
                );
                proof {
                    reveal(items_inv);
                    reveal(nodes_inv);
                    let old_plan = old(items)@[parent_idx].plan@;
                    assert(plan.last() == d);
                    assert(decisions_chained(sps, start, plan)) by {
                        assert forall|i: int| 0 <= i < plan.len() implies is_legal_decision(
                            sps,
                            plan_position(start, plan, i),
                            #[trigger] plan[i],
                        ) by {
                            if i < plan.len() - 1 {
                                assert(plan[i] == old_plan[i]);
                                assert(plan_position(start, plan, i) == plan_position(
                                    start,
                                    old_plan,
                                    i,
                                ));
                            } else {
                                assert(plan_position(start, plan, i) == old_plan.last().target());
                                assert(old_plan.last() == items@[parent_idx].decision);
                            }
                        }
                    }
                    assert(items_inv(items@, sps, start));
                    assert(nodes_inv(frontier@, items@, max_depth));
                }
            },
            Err(e) => {
                proof {
                    lemma_legal_not_illegal(sps, node.end, d);
                    if e == PlanError::Unreachable {
                        if terrain_plannable::<L>(view.layers_spec(), sps) {
                            assert(decision_reachable::<L>(
                                view.layers_spec(),
                                parent_sk,
                                node.end,
                                d,
                            ));
                            assert(false);
                        }
                    }
                }
                return Err(e);
            },
        }
        dj = dj + 1;
    }
    proof {
        if has_legal_decision(sps, node.end) {
            let d = choose|d: Decision| is_legal_decision(sps, node.end, d);
            assert(next_decisions@.contains(d));
        }
    }
    Ok(())
}


/// Removes and returns the frontier entry with the lowest cumulative
/// cost (ties broken by position in the frontier).
#[verifier::rlimit(100)]
fn pop_best(
    frontier: &mut Vec<DecisionNode>,
    Ghost(items): Ghost<Seq<DecisionItem>>,
    Ghost(max_depth): Ghost<u32>,
) -> (node: DecisionNode)
    requires
        old(frontier)@.len() > 0,
        nodes_inv(old(frontier)@, items, max_depth),
    ensures
        nodes_inv(final(frontier)@, items, max_depth),
        final(frontier)@.len() == old(frontier)@.len() - 1,
        node.decision < items.len(),
        node.search_depth + 1 == items[node.decision as int].plan@.len(),
        node.search_depth <= max_depth,
        node.end == items[node.decision as int].decision.target(),
        (node.result is Despawn) <==> items[node.decision as int].decision.is_terminal(),
{
    let mut best: usize = 0;
    let mut bi: usize = 1;
    while bi < frontier.len()
        invariant
            frontier@.len() > 0,
            best < frontier@.len(),
            bi <= frontier@.len(),
            frontier@ == old(frontier)@,
        decreases frontier@.len() - bi,
    {
        if frontier[bi].total_cost < frontier[best].total_cost {
            best = bi;
        }
        bi = bi + 1;
    }
    let ghost pre_frontier = frontier@;
    let node = frontier.swap_remove(best);
    proof {
        reveal(nodes_inv);
        assert(node == pre_frontier[best as int]);
        assert(nodes_inv(frontier@, items, max_depth));
    }
    node
}

} // verus!
