//! Agent state and the agent-biased edge-weight function.
//!
//! A skiing agent carries its accumulated cost, a stamina budget, a
//! preferred descent per step, and a flag telling the simulation to remove
//! it once its current plan has been played back.  The weight function
//! biases ground-to-ground edges by how far the descent deviates from the
//! preferred descent, and punishes climbing; all heights and costs are in
//! integer units.

use crate::coord::GridCoord;
use crate::decision::{get_best_decision, PlanError};
use crate::graph::{GraphLayer, GraphView, WeightGetter};
use crate::path::Path;
use crate::terrain::TerrainPoint;
use vstd::prelude::*;

verus! {

/// Per-agent planning state and behavioral parameters.
#[derive(Debug, Clone, Copy)]
pub struct SkiierData {
    /// Remove the agent once its current path has been played back.
    pub despawn_at_end: bool,
    /// Cost accumulated over all planned steps so far.
    pub total_cost: u32,
    /// Preferred descent in height units per step.
    pub prefered_slope: u32,
    /// How much cost the agent endures before heading home.
    pub stamina: u32,
}

/// `v` clipped to the `u32` range.
pub open spec fn clamp_u32(v: int) -> int {
    if v > u32::MAX {
        u32::MAX as int
    } else {
        v
    }
}

/// The weight of stepping from node value `start` to node value `end`:
/// onto a lift endpoint costs that lift's up-cost; onto a parking lot or
/// trail costs 1; between ground cells, a descent costs at least 3, more
/// the further it deviates (scaled by 10) from the agent's preferred
/// descent, while level or rising ground costs at least 5, more (scaled
/// by 100) the higher the climb.  Leaving a lift endpoint, parking lot or
/// trail for ground costs the same as arriving there.  Every weight is at
/// least 1 as long as lift up-costs are.
pub open spec fn spec_skiier_weight(sk: SkiierData, start: TerrainPoint, end: TerrainPoint) -> int {
    match end {
        TerrainPoint::Ground { height: end_height } => match start {
            TerrainPoint::Ground { height: start_height } => {
                if end_height < start_height {
                    let deviation = abs_diff(start_height - end_height, sk.prefered_slope as int);
                    max_int(clamp_u32(10 * deviation), 3)
                } else {
                    max_int(clamp_u32(100 * (end_height - start_height)), 5)
                }
            },
            TerrainPoint::LiftBottom { up_cost } => up_cost as int,
            TerrainPoint::LiftTop { up_cost } => up_cost as int,
            TerrainPoint::ParkingLot => 1,
            TerrainPoint::Trail => 1,
        },
        TerrainPoint::LiftBottom { up_cost } => up_cost as int,
        TerrainPoint::LiftTop { up_cost } => up_cost as int,
        TerrainPoint::ParkingLot => 1,
        TerrainPoint::Trail => 1,
    }
}

/// The absolute difference of two integers.
pub open spec fn abs_diff(a: int, b: int) -> int {
    if a >= b {
        a - b
    } else {
        b - a
    }
}

/// The larger of two integers.
pub open spec fn max_int(a: int, b: int) -> int {
    if a >= b {
        a
    } else {
        b
    }
}

impl SkiierData {
    /// A fresh agent with the given descent preference and stamina.
    pub fn from_preferred_angle_stamina(angle: u32, stamina: u32) -> (r: Self)
        ensures
            r.despawn_at_end == false,
            r.total_cost == 0,
            r.prefered_slope == angle,
            r.stamina == stamina,
    {
        let mut s = Self::default();
        s.prefered_slope = angle;
        s.stamina = stamina;
        s
    }

    /// Combines two agent states: the flags join, the costs add
    /// (saturating), and the behavioral parameters come from `skiier`.
    pub fn add(&self, skiier: &SkiierData) -> (r: Self)
        ensures
            r.despawn_at_end == (self.despawn_at_end || skiier.despawn_at_end),
            r.total_cost == if self.total_cost + skiier.total_cost <= u32::MAX {
                self.total_cost + skiier.total_cost
            } else {
                u32::MAX as int
            },
            r.prefered_slope == skiier.prefered_slope,
            r.stamina == skiier.stamina,
    {
        SkiierData {
            despawn_at_end: self.despawn_at_end || skiier.despawn_at_end,
            total_cost: self.total_cost.saturating_add(skiier.total_cost),
            prefered_slope: skiier.prefered_slope,
            stamina: skiier.stamina,
        }
    }
}

impl Default for SkiierData {
    /// A fresh agent: nothing accumulated, a stamina budget of 1000, and
    /// a preferred descent of one height unit per step.
    fn default() -> (r: Self)
        ensures
            r.despawn_at_end == false,
            r.total_cost == 0,
            r.prefered_slope == 1,
            r.stamina == 1000,
    {
        SkiierData { despawn_at_end: false, total_cost: 0, stamina: 1000, prefered_slope: 1 }
    }
}

impl WeightGetter<TerrainPoint, u32> for SkiierData {
    open spec fn spec_weight(&self, start: TerrainPoint, end: TerrainPoint) -> u32 {
        spec_skiier_weight(*self, start, end) as u32
    }

    fn get_weight(&self, start: &TerrainPoint, end: &TerrainPoint) -> (r: u32) {
        let r = match *end {
            TerrainPoint::Ground { height: end_height } => match *start {
                TerrainPoint::Ground { height: start_height } => {
                    if end_height < start_height {
                        let drop = (start_height - end_height) as u64;
                        let pref = self.prefered_slope as u64;
                        let deviation = if drop >= pref {
                            drop - pref
                        } else {
                            pref - drop
                        };
                        let scaled = 10 * deviation;
                        let clamped = if scaled > 0xffff_ffffu64 {
                            u32::MAX
                        } else {
                            scaled as u32
                        };
                        if clamped >= 3 {
                            clamped
                        } else {
                            3
                        }
                    } else {
                        let rise = (end_height - start_height) as u64;
                        let scaled = 100 * rise;
                        let clamped = if scaled > 0xffff_ffffu64 {
                            u32::MAX
                        } else {
                            scaled as u32
                        };
                        if clamped >= 5 {
                            clamped
                        } else {
                            5
                        }
                    }
                },
                TerrainPoint::LiftBottom { up_cost } => up_cost,
                TerrainPoint::LiftTop { up_cost } => up_cost,
                TerrainPoint::ParkingLot => 1,
                TerrainPoint::Trail => 1,
            },
            TerrainPoint::LiftBottom { up_cost } => up_cost,
            TerrainPoint::LiftTop { up_cost } => up_cost,
            TerrainPoint::ParkingLot => 1,
            TerrainPoint::Trail => 1,
        };
        r
    }
}

/// Plans the next journey leg for an agent: asks the planner for the best
/// decision sequence, then replays it step by step, concatenating the
/// sub-paths and evolving the agent state, which ends marked for removal
/// exactly when the plan ends with a terminal decision.
#[verifier::rlimit(100)]
pub fn build_decision<L: GraphLayer<TerrainPoint>>(
    view: &GraphView<L>,
    start: GridCoord,
    skiier_data: &SkiierData,
    max_depth: u32,
) -> (r: Result<(SkiierData, Path<u32>), PlanError>)
    ensures
        match r {
            Ok((sk, path)) => {
                &&& path.points@.len() >= 1
                &&& sk.prefered_slope == skiier_data.prefered_slope
                &&& sk.stamina == skiier_data.stamina
                &&& exists|ds: Seq<crate::decision::Decision>|
                    {
                        &&& #[trigger] crate::decision::decisions_chained(
                            view.spec_special_points::<TerrainPoint>(),
                            start,
                            ds,
                        )
                        &&& 1 <= ds.len() <= max_depth + 1
                        &&& (ds.last().is_terminal() || ds.len() == max_depth + 1)
                        &&& forall|t: int|
                            0 <= t < ds.len() - 1 ==> !(#[trigger] ds[t]).is_terminal()
                        &&& path.points@.last() == ds.last().target()
                        &&& sk.despawn_at_end == (skiier_data.despawn_at_end
                            || ds.last().is_terminal())
                        &&& exists|first: Seq<GridCoord>, segs: Seq<Seq<GridCoord>>|
                            {
                                &&& path.points@ == crate::path::fold_append_points(first, segs)
                                &&& segs.len() == ds.len() - 1
                                &&& first.len() >= 1
                                &&& first.last() == ds[0].target()
                                &&& forall|k: int|
                                    0 <= k < segs.len() ==> (#[trigger] segs[k]).len() >= 1
                                        && segs[k].last() == ds[k + 1].target()
                            }
                    }
            },
            Err(_) => true,
        },
        crate::decision::terrain_plannable::<L>(
            view.layers_spec(),
            view.spec_special_points::<TerrainPoint>(),
        ) ==> (r is Ok || r == Err::<(SkiierData, Path<u32>), PlanError>(
            PlanError::BudgetExhausted,
        )),
{
    let ghost sps = view.spec_special_points::<TerrainPoint>();
    let decisions = match get_best_decision(view, skiier_data, start, max_depth) {
        Ok(ds) => ds,
        Err(e) => {
            return Err(e);
        },
    };
    let first = decisions[0];
    proof {
        assert(crate::decision::is_legal_decision(sps, start, decisions@[0]));
        crate::decision::lemma_legal_not_illegal(sps, start, first);
    }
    let (_res0, _cost0, mut path, mut current_skiier) = match first.get_cost(
        view,
        skiier_data,
        start,
    ) {
        Ok(v) => v,
        Err(e) => {
            proof {
                if e == PlanError::Unreachable {
                    if crate::decision::terrain_plannable::<L>(view.layers_spec(), sps) {
                        assert(crate::decision::decision_reachable::<L>(
                            view.layers_spec(),
                            *skiier_data,
                            start,
                            first,
                        ));
                        assert(false);
                    }
                }
            }
            return Err(e);
        },
    };
    let mut end = path.get_end();
    let ghost first_pts = path.points@;
    let ghost mut segs: Seq<Seq<GridCoord>> = Seq::empty();
    let n = decisions.len();
    let mut i: usize = 1;
    let mut done = false;
    while i < n && !done
        invariant
            1 <= i <= n,
            n == decisions@.len(),
            sps == view.spec_special_points::<TerrainPoint>(),
            crate::decision::decisions_chained(sps, start, decisions@),
            forall|t: int|
                0 <= t < decisions@.len() - 1 ==> !(#[trigger] decisions@[t]).is_terminal(),
            decisions@.last().is_terminal() || decisions@.len() == max_depth + 1,
            decisions@.len() <= max_depth + 1,
            done ==> decisions@[i - 1].is_terminal(),
            path.points@.len() >= 1,
            path.points@.last() == decisions@[i - 1].target(),
            end == decisions@[i - 1].target(),
            current_skiier.despawn_at_end == (skiier_data.despawn_at_end || decisions@[i
                - 1].is_terminal()),
            current_skiier.prefered_slope == skiier_data.prefered_slope,
            current_skiier.stamina == skiier_data.stamina,
            path.points@ == crate::path::fold_append_points(first_pts, segs),
            segs.len() == i - 1,
            first_pts.len() >= 1,
            first_pts.last() == decisions@[0].target(),
            forall|k: int|
                0 <= k < segs.len() ==> (#[trigger] segs[k]).len() >= 1 && segs[k].last()
                    == decisions@[k + 1].target(),
        decreases n - i,
    {
        let d = decisions[i];
        proof {
            assert(crate::decision::is_legal_decision(
                sps,
                crate::decision::plan_position(start, decisions@, i as int),
                decisions@[i as int],
            ));
            crate::decision::lemma_legal_not_illegal(sps, end, d);
        }
        let (res, _step_cost, new_path, t_skiier) = match d.get_cost(view, &current_skiier, end) {
            Ok(v) => v,
            Err(e) => {
                proof {
                    if e == PlanError::Unreachable {
                        if crate::decision::terrain_plannable::<L>(view.layers_spec(), sps) {
                            assert(crate::decision::decision_reachable::<L>(
                                view.layers_spec(),
                                current_skiier,
                                end,
                                d,
                            ));
                            assert(false);
                        }
                    }
                }
                return Err(e);
            },
        };
        current_skiier = t_skiier;
        end = new_path.get_end();
        let ghost new_pts = new_path.points@;
        let ghost pre_pts = path.points@;
        path.append(new_path);
        proof {
            crate::path::lemma_append_points_last(pre_pts, new_pts);
            crate::path::lemma_fold_append_snoc(first_pts, segs, new_pts);
            segs = segs.push(new_pts);
        }
        i = i + 1;
        if res == crate::decision::DecisionResult::Despawn {
            done = true;
        }
    }
    proof {
        let ds = decisions@.take(i as int);
        assert(ds.len() == i);
        assert(ds.last() == decisions@[i - 1]);
        assert(crate::decision::decisions_chained(sps, start, ds)) by {
            assert forall|t: int|
                0 <= t < ds.len() implies crate::decision::is_legal_decision(
                sps,
                crate::decision::plan_position(start, ds, t),
                #[trigger] ds[t],
            ) by {
                assert(ds[t] == decisions@[t]);
                assert(crate::decision::plan_position(start, ds, t)
                    == crate::decision::plan_position(start, decisions@, t));
            }
        }
        assert(path.points@.last() == ds.last().target());
        assert(ds.last().is_terminal() || ds.len() == max_depth + 1) by {
            if !done {
                assert(i == n);
                assert(ds =~= decisions@);
            }
        }
        assert(forall|t: int| 0 <= t < ds.len() - 1 ==> !(#[trigger] ds[t]).is_terminal()) by {
            assert(forall|t: int|
                0 <= t < ds.len() - 1 ==> ds[t] == #[trigger] decisions@[t]);
        }
        assert(first_pts.last() == ds[0].target());
        assert(forall|k: int|
            0 <= k < segs.len() ==> (#[trigger] segs[k]).len() >= 1 && segs[k].last() == ds[k
                + 1].target());
    }
    Ok((current_skiier, path))
}

} // verus!
