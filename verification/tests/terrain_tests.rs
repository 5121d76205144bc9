//! Trail network, overlay layers, weights and the decision planner.

use slana::coord::GridCoord;
use slana::decision::{
    get_best_decision, get_decisions, Decision, DecisionNode, DecisionResult, GoToLiftBottom,
    GoToParkingLot, GoUpLift, PlanError, EXIT_RELUCTANCE,
};
use slana::graph::{GraphLayer, GraphView, SpecialPoint, WeightGetter};
use slana::layers::{LiftLayer, ParkingLotLayer, TerrainLayer};
use slana::search::dijkstra;
use slana::skiier::{build_decision, SkiierData};
use slana::terrain::{Terrain, TerrainPoint};
use slana::trails::{TrailCollection, TrailError};

#[test]
fn make_collection() {
    let _c = TrailCollection::default();
}

#[test]
fn add_trail() {
    let mut c = TrailCollection::default();
    let (_s, _e) = c.add_trail(GridCoord::from_xy(0, 0), 1, GridCoord::from_xy(0, 1), 1);
}

#[test]
fn append_trail() {
    let mut c = TrailCollection::default();
    let (_s, end) = c.add_trail(GridCoord::from_xy(0, 0), 1, GridCoord::from_xy(0, 1), 1);
    c.append_trail(end, GridCoord::from_xy(0, 2), 1)
        .expect("should be successfull");
}

#[test]
fn connect_trail() {
    let mut c = TrailCollection::default();
    let (start, _e) = c.add_trail(GridCoord::from_xy(0, 0), 1, GridCoord::from_xy(0, 2), 1);
    let (start_2, _end2) = c.add_trail(GridCoord::from_xy(1, 1), 1, GridCoord::from_xy(1, 2), 1);
    let _ = c.connect_trail(start_2, start, 1, 1);
}

#[test]
fn get_children() {
    let mut c = TrailCollection::default();
    let (_start, _end) = c.add_trail(GridCoord::from_xy(0, 0), 1, GridCoord::from_xy(0, 1), 1);
    assert_eq!(
        c.get_children(GridCoord::from_xy(0, 0)),
        vec![(GridCoord::from_xy(0, 1), TerrainPoint::Trail)]
    );
    assert_eq!(
        c.get_children(GridCoord::from_xy(0, 1)),
        vec![(GridCoord::from_xy(0, 0), TerrainPoint::Trail)]
    );
}

#[test]
fn append_to_stale_reference_fails() {
    let mut other = TrailCollection::default();
    let (_a, b) = other.add_trail(GridCoord::from_xy(0, 0), 1, GridCoord::from_xy(0, 1), 1);
    let (_c, d) = other.add_trail(GridCoord::from_xy(2, 0), 1, GridCoord::from_xy(2, 1), 1);
    let _ = b;
    let mut fresh = TrailCollection::default();
    // `d` names the fourth entry of `other`; `fresh` has none.
    match fresh.append_trail(d, GridCoord::from_xy(5, 5), 1) {
        Err(TrailError::RefDoesNotExist(r)) => assert_eq!(r, d),
        other => panic!("expected a missing-reference failure, got {:?}", other),
    }
    assert_eq!(fresh.len(), 0);
}

#[test]
fn append_links_both_ways() {
    let mut c = TrailCollection::default();
    let (_s, end) = c.add_trail(GridCoord::from_xy(0, 0), 1, GridCoord::from_xy(0, 1), 1);
    let new_ref = c.append_trail(end, GridCoord::from_xy(0, 2), 1).expect("valid reference");
    let _ = new_ref;
    // the new node neighbors the node it was appended from, and back
    assert!(c
        .get_children(GridCoord::from_xy(0, 2))
        .contains(&(GridCoord::from_xy(0, 1), TerrainPoint::Trail)));
    assert!(c
        .get_children(GridCoord::from_xy(0, 1))
        .contains(&(GridCoord::from_xy(0, 2), TerrainPoint::Trail)));
}

#[test]
fn connect_to_stale_reference_fails() {
    let mut c = TrailCollection::default();
    let (start, _e) = c.add_trail(GridCoord::from_xy(0, 0), 1, GridCoord::from_xy(0, 2), 1);
    let mut other = TrailCollection::default();
    let (_x, stale) = other.add_trail(GridCoord::from_xy(9, 9), 1, GridCoord::from_xy(9, 8), 1);
    let (_y, stale2) = other.add_trail(GridCoord::from_xy(8, 9), 1, GridCoord::from_xy(8, 8), 1);
    let _ = stale;
    match c.connect_trail(start, stale2, 1, 1) {
        Err(TrailError::RefDoesNotExist(r)) => assert_eq!(r, stale2),
        other => panic!("expected a missing-reference failure, got {:?}", other),
    }
}

#[test]
fn iter_trails_lists_waypoints() {
    let mut c = TrailCollection::default();
    let (_s, _e) = c.add_trail(GridCoord::from_xy(0, 0), 3, GridCoord::from_xy(0, 1), 4);
    assert_eq!(
        c.iter_trails(),
        vec![(GridCoord::from_xy(0, 0), 3), (GridCoord::from_xy(0, 1), 4)]
    );
}

#[test]
fn iter_paths_visits_each_edge_once() {
    let mut c = TrailCollection::default();
    let (_s, e) = c.add_trail(GridCoord::from_xy(0, 0), 1, GridCoord::from_xy(1, 1), 1);
    c.append_trail(e, GridCoord::from_xy(2, 2), 1).expect("valid");
    let paths = c.iter_paths();
    assert_eq!(paths.len(), 2);
    assert!(paths.contains(&(GridCoord::from_xy(0, 0), GridCoord::from_xy(1, 1)))
        || paths.contains(&(GridCoord::from_xy(1, 1), GridCoord::from_xy(0, 0))));
    assert!(paths.contains(&(GridCoord::from_xy(1, 1), GridCoord::from_xy(2, 2)))
        || paths.contains(&(GridCoord::from_xy(2, 2), GridCoord::from_xy(1, 1))));
}

#[test]
fn iter_paths_walks_connections_like_plain_segments() {
    let mut c = TrailCollection::default();
    let (a, _b) = c.add_trail(GridCoord::from_xy(0, 0), 1, GridCoord::from_xy(0, 2), 1);
    let (a2, _b2) = c.add_trail(GridCoord::from_xy(1, 1), 1, GridCoord::from_xy(1, 2), 1);
    let _k = c.connect_trail(a2, a, 1, 1).expect("both references valid");
    // two plain edges, plus the two sides of the branch connection,
    // each undirected edge exactly once
    let paths = c.iter_paths();
    assert_eq!(paths.len(), 4);
}

#[test]
fn lift_layer_contract() {
    let lift = LiftLayer::new(GridCoord::from_xy(0, 0), GridCoord::from_xy(5, 5), 2);
    assert_eq!(
        lift.get_children(GridCoord::from_xy(0, 0)),
        vec![(GridCoord::from_xy(5, 5), TerrainPoint::LiftTop { up_cost: 2 })]
    );
    assert_eq!(lift.get_children(GridCoord::from_xy(5, 5)), vec![]);
    assert_eq!(
        lift.get_node(GridCoord::from_xy(0, 0)),
        Some(TerrainPoint::LiftBottom { up_cost: 2 })
    );
    assert_eq!(
        lift.get_node(GridCoord::from_xy(5, 5)),
        Some(TerrainPoint::LiftTop { up_cost: 2 })
    );
    assert_eq!(lift.get_node(GridCoord::from_xy(1, 1)), None);
    assert_eq!(
        lift.get_special_pooints(),
        vec![
            (SpecialPoint::LiftTop, GridCoord::from_xy(5, 5)),
            (SpecialPoint::LiftBottom, GridCoord::from_xy(0, 0))
        ]
    );
}

#[test]
fn parking_lot_contract() {
    let lot = ParkingLotLayer::new(GridCoord::from_xy(10, 10));
    assert_eq!(lot.get_children(GridCoord::from_xy(10, 10)), vec![]);
    assert_eq!(lot.get_node(GridCoord::from_xy(10, 10)), Some(TerrainPoint::ParkingLot));
    assert_eq!(lot.get_node(GridCoord::from_xy(0, 0)), None);
    assert_eq!(
        lot.get_special_pooints(),
        vec![(SpecialPoint::ParkingLot, GridCoord::from_xy(10, 10))]
    );
}

#[test]
fn weight_formula_exact_values() {
    let sk = SkiierData::from_preferred_angle_stamina(1, 1000);
    let g = |h: u32| TerrainPoint::Ground { height: h };
    // descent of 2 deviates by 1 from the preferred descent of 1
    assert_eq!(sk.get_weight(&g(5), &g(3)), 10);
    // the preferred descent costs the floor of 3
    assert_eq!(sk.get_weight(&g(5), &g(4)), 3);
    // level ground costs the floor of 5
    assert_eq!(sk.get_weight(&g(5), &g(5)), 5);
    // a climb of 2 costs 200
    assert_eq!(sk.get_weight(&g(3), &g(5)), 200);
    // lift endpoints cost the lift's up-cost
    assert_eq!(sk.get_weight(&g(3), &TerrainPoint::LiftTop { up_cost: 2 }), 2);
    assert_eq!(sk.get_weight(&TerrainPoint::LiftBottom { up_cost: 2 }, &g(3)), 2);
    // parking lots and trails cost 1
    assert_eq!(sk.get_weight(&g(3), &TerrainPoint::ParkingLot), 1);
    assert_eq!(sk.get_weight(&g(3), &TerrainPoint::Trail), 1);
}

#[test]
fn skiier_add_combines_states() {
    let mut a = SkiierData::from_preferred_angle_stamina(1, 500);
    a.total_cost = 10;
    let mut b = SkiierData::from_preferred_angle_stamina(2, 700);
    b.total_cost = 5;
    b.despawn_at_end = true;
    let c = a.add(&b);
    assert_eq!(c.total_cost, 15);
    assert!(c.despawn_at_end);
    assert_eq!(c.prefered_slope, 2);
    assert_eq!(c.stamina, 700);
}

#[test]
fn ordering() {
    let n1 = DecisionNode {
        decision: 0,
        end: GridCoord::from_xy(0, 0),
        total_cost: 1,
        search_depth: 0,
        result: DecisionResult::Goto(GridCoord::from_xy(1, 1)),
    };
    let n2 = DecisionNode {
        decision: 0,
        end: GridCoord::from_xy(0, 0),
        total_cost: 2,
        search_depth: 0,
        result: DecisionResult::Goto(GridCoord::from_xy(1, 1)),
    };
    assert!(n2 > n1);
    assert!(n2 >= n1);
    assert!(n1 < n2);
    assert!(n1 <= n2);
    let new_n1 = DecisionNode {
        decision: 0,
        end: GridCoord::from_xy(0, 0),
        total_cost: 1,
        search_depth: 0,
        result: DecisionResult::Goto(GridCoord::from_xy(1, 1)),
    };
    assert!(n1 == new_n1)
}

fn resort() -> Vec<TerrainLayer> {
    let terrain = Terrain::basic(11, 11);
    let lift = LiftLayer::new(GridCoord::from_xy(0, 0), GridCoord::from_xy(5, 5), 2);
    let lot = ParkingLotLayer::new(GridCoord::from_xy(10, 10));
    vec![
        TerrainLayer::Grid(terrain.grid),
        TerrainLayer::Lift(lift),
        TerrainLayer::Parking(lot),
    ]
}

#[test]
fn decisions_at_lift_bottom() {
    let layers = resort();
    let view = GraphView::from(layers.iter().collect());
    let ds = get_decisions(&view, GridCoord::from_xy(0, 0));
    // standing at the lift's bottom: ride it up, or head for the exit
    assert_eq!(ds.len(), 2);
    assert!(ds.contains(&Decision::GoToParkingLot(GoToParkingLot {
        position: GridCoord::from_xy(10, 10)
    })));
    assert!(ds.contains(&Decision::GoUpLift(GoUpLift {
        lift_bottom: GridCoord::from_xy(0, 0),
        lift_top: GridCoord::from_xy(5, 5)
    })));
    let ds2 = get_decisions(&view, GridCoord::from_xy(3, 3));
    // elsewhere: head for the lift's bottom, or for the exit
    assert_eq!(ds2.len(), 2);
    assert!(ds2.contains(&Decision::GoToLiftBottom(GoToLiftBottom {
        lift_bottom: GridCoord::from_xy(0, 0)
    })));
}

#[test]
fn exhausted_agent_plans_toward_the_exit() {
    let layers = resort();
    let view = GraphView::from(layers.iter().collect());
    let skiier = SkiierData::from_preferred_angle_stamina(1, 1);
    let plan = get_best_decision(&view, &skiier, GridCoord::from_xy(0, 0), 3)
        .expect("the resort is connected");
    assert!(plan.len() >= 1);
    assert!(matches!(plan[plan.len() - 1], Decision::GoToParkingLot(_)));
    let (after, path) = build_decision(&view, GridCoord::from_xy(0, 0), &skiier, 3)
        .expect("the resort is connected");
    assert!(after.despawn_at_end);
    assert_eq!(path.get_end(), GridCoord::from_xy(10, 10));
}

#[test]
fn view_tags_special_points_with_layer_index() {
    let layers = resort();
    let view = GraphView::from(layers.iter().collect());
    let sp = view.special_points();
    assert_eq!(
        sp,
        vec![
            (SpecialPoint::LiftTop, GridCoord::from_xy(5, 5), 1),
            (SpecialPoint::LiftBottom, GridCoord::from_xy(0, 0), 1),
            (SpecialPoint::ParkingLot, GridCoord::from_xy(10, 10), 2),
        ]
    );
}

#[test]
fn terrain_builders_fill_ground() {
    let t = Terrain::basic(4, 4);
    assert_eq!(*t.grid.get(2, 2), TerrainPoint::Ground { height: 2 });
    let s = Terrain::slope(4, 4);
    assert_eq!(*s.grid.get(0, 0), TerrainPoint::Ground { height: 1 });
    assert_eq!(*s.grid.get(3, 1), TerrainPoint::Ground { height: 4 });
    let p = Terrain::from_pgm("P2\n1 1\n10000\n10000\n".to_string()).expect("well-formed");
    assert_eq!(*p.grid.get(0, 0), TerrainPoint::Ground { height: 10000 });
}

#[test]
fn dijkstra_with_agent_weights() {
    let terrain = Terrain::basic(5, 5);
    let layers = vec![TerrainLayer::Grid(terrain.grid)];
    let view = GraphView::from(layers.iter().collect());
    let sk = SkiierData::from_preferred_angle_stamina(1, 1000);
    let path = dijkstra(&view, &sk, GridCoord::from_xy(0, 0), GridCoord::from_xy(2, 0))
        .expect("flat ground is connected");
    // two level-ground steps at the floor weight of 5 each
    assert_eq!(path.total_cost, 10);
    assert_eq!(
        path.points,
        vec![GridCoord::from_xy(1, 0), GridCoord::from_xy(2, 0)]
    );
}

#[test]
fn illegal_decision_is_reported() {
    let layers = resort();
    let view = GraphView::from(layers.iter().collect());
    let sk = SkiierData::from_preferred_angle_stamina(1, 1000);
    // riding a lift anywhere but at its bottom is a planner logic error
    let ride = Decision::GoUpLift(GoUpLift {
        lift_bottom: GridCoord::from_xy(0, 0),
        lift_top: GridCoord::from_xy(5, 5),
    });
    assert!(matches!(
        ride.get_cost(&view, &sk, GridCoord::from_xy(3, 3)),
        Err(PlanError::IllegalDecision)
    ));
    // heading for a lift bottom one already stands on is one too
    let head = Decision::GoToLiftBottom(GoToLiftBottom {
        lift_bottom: GridCoord::from_xy(0, 0),
    });
    assert!(matches!(
        head.get_cost(&view, &sk, GridCoord::from_xy(0, 0)),
        Err(PlanError::IllegalDecision)
    ));
}

#[test]
fn exit_cost_follows_stamina() {
    let layers = resort();
    let view = GraphView::from(layers.iter().collect());
    let exit = Decision::GoToParkingLot(GoToParkingLot {
        position: GridCoord::from_xy(10, 10),
    });
    // with stamina left, exiting is discouraged by a large cost
    let fresh = SkiierData::from_preferred_angle_stamina(1, 1000);
    let (res, cost, _path, after) = exit
        .get_cost(&view, &fresh, GridCoord::from_xy(0, 0))
        .expect("the exit is reachable");
    assert_eq!(res, DecisionResult::Despawn);
    assert_eq!(cost, EXIT_RELUCTANCE);
    assert!(after.despawn_at_end);
    // once the accumulated cost reaches the budget, exiting is nearly free
    let mut spent = SkiierData::from_preferred_angle_stamina(1, 50);
    spent.total_cost = 50;
    let (_res, cost, _path, _after) = exit
        .get_cost(&view, &spent, GridCoord::from_xy(0, 0))
        .expect("the exit is reachable");
    assert_eq!(cost, 1);
}

#[test]
fn lift_ride_cost_is_floored() {
    let layers = resort();
    let view = GraphView::from(layers.iter().collect());
    let sk = SkiierData::from_preferred_angle_stamina(1, 1000);
    let ride = Decision::GoUpLift(GoUpLift {
        lift_bottom: GridCoord::from_xy(0, 0),
        lift_top: GridCoord::from_xy(5, 5),
    });
    let (res, cost, path, after) = ride
        .get_cost(&view, &sk, GridCoord::from_xy(0, 0))
        .expect("the lift edge is direct");
    assert_eq!(res, DecisionResult::Goto(GridCoord::from_xy(5, 5)));
    // the direct lift edge costs 2, floored to the minimum step cost
    assert_eq!(cost, 100);
    assert_eq!(path.get_end(), GridCoord::from_xy(5, 5));
    assert_eq!(after.total_cost, 100);
    assert!(!after.despawn_at_end);
}

#[test]
fn trail_children_union_over_entries() {
    let mut c = TrailCollection::default();
    let shared = GridCoord::from_xy(0, 0);
    let (_s1, _e1) = c.add_trail(shared, 1, GridCoord::from_xy(0, 1), 1);
    let (_s2, _e2) = c.add_trail(shared, 1, GridCoord::from_xy(1, 0), 1);
    // both entries stored at the shared coordinate contribute their neighbors
    let kids = c.get_children(shared);
    assert_eq!(kids.len(), 2);
    assert!(kids.contains(&(GridCoord::from_xy(0, 1), TerrainPoint::Trail)));
    assert!(kids.contains(&(GridCoord::from_xy(1, 0), TerrainPoint::Trail)));
}

#[test]
fn branch_points_are_traversable() {
    let mut c = TrailCollection::default();
    let (a, _b) = c.add_trail(GridCoord::from_xy(0, 0), 1, GridCoord::from_xy(0, 2), 1);
    let (a2, _b2) = c.add_trail(GridCoord::from_xy(1, 1), 1, GridCoord::from_xy(1, 2), 1);
    c.connect_trail(a2, a, 1, 1).expect("both references valid");
    // the branch entry shares the target's coordinate, so the joining
    // trail is reachable from there
    let kids = c.get_children(GridCoord::from_xy(0, 0));
    assert!(kids.contains(&(GridCoord::from_xy(1, 1), TerrainPoint::Trail)));
    assert!(kids.contains(&(GridCoord::from_xy(0, 2), TerrainPoint::Trail)));
}
