//! Grid, coordinate, path and search behavior.

use slana::coord::GridCoord;
use slana::cost::Cost;
use slana::graph::{GraphLayer, GraphView, SpecialPoint, WeightGetter};
use slana::grid::Grid;
use slana::path::Path;
use slana::search::dijkstra;

struct U32toWeight;

impl WeightGetter<u32, u32> for U32toWeight {
    fn spec_weight(&self, _start: u32, end: u32) -> u32 {
        end
    }

    fn get_weight(&self, _start: &u32, end: &u32) -> u32 {
        *end
    }
}

#[test]
fn new() {
    let grid: Grid<usize> = Grid::from_val((100, 100), 0usize);
    assert_eq!(*grid.get(10, 10), 0);
}

#[test]
fn grid_point() {
    let point = GridCoord::from_xy(10, 4);
    assert_eq!(point.to_xy(), (10, 4));
}

#[test]
fn find_null_path() {
    let grid: Grid<u32> = Grid::from_val((100, 100), 1u32);
    let path = dijkstra(
        &GraphView::from(vec![&grid]),
        &U32toWeight,
        GridCoord::from_xy(0, 0),
        GridCoord::from_xy(0, 0),
    )
    .expect("start is its own goal");
    assert_eq!(
        path,
        Path {
            total_cost: 0,
            points: vec![GridCoord::from_xy(0, 0)]
        }
    );
}

#[test]
fn grid_children() {
    let grid: Grid<u32> = Grid::from_val((100, 100), 1u32);
    let mut center_children = grid.get_children(GridCoord::from_xy(1, 1));
    center_children.sort();
    let mut test_data = vec![
        (GridCoord::from_xy(1, 0), 1),
        (GridCoord::from_xy(0, 1), 1),
        (GridCoord::from_xy(2, 1), 1),
        (GridCoord::from_xy(1, 2), 1),
    ];
    test_data.sort();
    assert_eq!(center_children, test_data);
    let mut edge = grid.get_children(GridCoord::from_xy(0, 1));
    edge.sort();
    let mut test_data = vec![
        (GridCoord::from_xy(0, 0), 1),
        (GridCoord::from_xy(0, 2), 1),
        (GridCoord::from_xy(1, 1), 1),
    ];
    test_data.sort();
    assert_eq!(edge, test_data);
}

#[test]
fn find_two_path() {
    let grid: Grid<u32> = Grid::from_val((100, 100), 1u32);
    let path = dijkstra(
        &GraphView::from(vec![&grid]),
        &U32toWeight,
        GridCoord::from_xy(0, 0),
        GridCoord::from_xy(2, 0),
    )
    .expect("two steps east are reachable");
    assert_eq!(
        path,
        Path {
            total_cost: 2,
            points: vec![GridCoord::from_xy(1, 0), GridCoord::from_xy(2, 0)]
        }
    );
}

#[test]
fn coord_round_trip_extremes() {
    for &(x, y) in &[(0, 0), (1, 0), (0, 1), (i32::MAX, i32::MAX), (i32::MAX, 0), (7, 123456)] {
        let c = GridCoord::from_xy(x, y);
        assert_eq!(c.to_xy(), (x, y));
    }
}

#[test]
fn coord_order_is_lexicographic() {
    let a = GridCoord::from_xy(1, 9);
    let b = GridCoord::from_xy(2, 0);
    let c = GridCoord::from_xy(2, 1);
    assert!(a < b);
    assert!(b < c);
}

#[test]
fn grid_corner_has_two_neighbors() {
    let grid: Grid<u32> = Grid::from_val((100, 100), 1u32);
    let (sx, sy) = grid.size();
    assert_eq!(grid.get_children(GridCoord::from_xy(0, 0)).len(), 2);
    assert_eq!(grid.get_children(GridCoord::from_xy(99, 99)).len(), 2);
    assert_eq!(grid.get_children(GridCoord::from_xy(0, 50)).len(), 3);
    assert_eq!(grid.get_children(GridCoord::from_xy(50, 0)).len(), 3);
    assert_eq!(grid.get_children(GridCoord::from_xy(50, 50)).len(), 4);
    for c in grid.get_children(GridCoord::from_xy(0, 0)) {
        let (x, y) = c.0.to_xy();
        assert!(x >= 0 && (x as usize) < sx && y >= 0 && (y as usize) < sy);
    }
}

#[test]
fn grid_from_fn_fills_by_position() {
    let grid: Grid<u32> = Grid::from_fn((4, 3), |x, y| (x * 10 + y) as u32);
    assert_eq!(*grid.get(0, 0), 0);
    assert_eq!(*grid.get(3, 2), 32);
    assert_eq!(grid.size(), (4, 3));
    assert_eq!(grid.size_x(), 4);
    assert_eq!(grid.size_y(), 3);
}

#[test]
fn grid_get_node_checks_bounds() {
    let grid: Grid<u32> = Grid::from_val((4, 3), 7u32);
    assert_eq!(grid.get_node(GridCoord::from_xy(3, 2)), Some(7));
    assert_eq!(grid.get_node(GridCoord::from_xy(4, 0)), None);
    assert_eq!(grid.get_node(GridCoord::from_xy(0, 3)), None);
    assert_eq!(grid.get_special_pooints(), vec![]);
}

#[test]
fn path_append_dedups_boundary() {
    let mut a: Path<u32> = Path {
        total_cost: 3,
        points: vec![GridCoord::from_xy(0, 0), GridCoord::from_xy(1, 0)],
    };
    let b: Path<u32> = Path {
        total_cost: 4,
        points: vec![GridCoord::from_xy(1, 0), GridCoord::from_xy(2, 0)],
    };
    a.append(b);
    assert_eq!(a.total_cost, 7);
    assert_eq!(
        a.points,
        vec![
            GridCoord::from_xy(0, 0),
            GridCoord::from_xy(1, 0),
            GridCoord::from_xy(2, 0)
        ]
    );
    assert_eq!(a.get_end(), GridCoord::from_xy(2, 0));
    assert_eq!(a.cost(), 7);
}

#[test]
fn cost_contract_saturates() {
    assert_eq!(<u32 as Cost>::zero(), 0);
    assert_eq!(<u32 as Cost>::max_val(), u32::MAX);
    assert_eq!(3u32.add(4), 7);
    assert_eq!(u32::MAX.add(5), u32::MAX);
    assert_eq!(<u8 as Cost>::max_val(), u8::MAX);
    assert_eq!(250u8.add(10), 255);
    assert_eq!(<u16 as Cost>::zero(), 0);
    assert_eq!(<u64 as Cost>::max_val(), u64::MAX);
    assert!(Cost::lt(&2u32, &3));
    assert!(Cost::le(&3u32, &3));
}

#[test]
fn view_concatenates_layers() {
    let g1: Grid<u32> = Grid::from_val((2, 2), 1u32);
    let g2: Grid<u32> = Grid::from_val((3, 3), 2u32);
    let view = GraphView::from(vec![&g1, &g2]);
    let nodes = view.get_node(GridCoord::from_xy(0, 0));
    assert_eq!(nodes, vec![1, 2]);
    let children = view.get_children(GridCoord::from_xy(0, 0));
    assert_eq!(children.len(), 4);
    let sp: Vec<(SpecialPoint, GridCoord, usize)> = view.special_points();
    assert_eq!(sp, vec![]);
}

#[test]
fn unreachable_goal_is_an_error() {
    let grid: Grid<u32> = Grid::from_val((2, 2), 1u32);
    let r = dijkstra(
        &GraphView::from(vec![&grid]),
        &U32toWeight,
        GridCoord::from_xy(0, 0),
        GridCoord::from_xy(5, 5),
    );
    assert!(matches!(r, Err(slana::search::SearchError::GoalUnreachable)));
}
