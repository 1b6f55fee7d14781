use std::collections::HashSet;
use void_engine::pathfind::{astar_bool_grid, astar_tile_grid, TileSource};

fn open(w: u32, h: u32) -> Vec<bool> {
    vec![false; (w * h) as usize]
}

struct Grid {
    w: u32,
    h: u32,
    blocked: Vec<bool>,
}

impl TileSource for Grid {
    fn dims(&self) -> (u32, u32) {
        (self.w, self.h)
    }
    fn blocks(&self, c: i32, r: i32) -> bool {
        if c < 0 || r < 0 || c >= self.w as i32 || r >= self.h as i32 {
            return true;
        }
        self.blocked[(r as u32 * self.w + c as u32) as usize]
    }
}

#[test]
fn start_equals_goal_is_an_empty_path() {
    let g = open(4, 4);
    assert_eq!(astar_bool_grid(4, 4, &g, (1, 1), (1, 1)), Some(Vec::new()));
}

#[test]
fn path_excludes_the_start_and_includes_the_goal() {
    let g = open(4, 4);
    let path = astar_bool_grid(4, 4, &g, (0, 0), (2, 0)).expect("reachable");
    assert!(!path.contains(&(0, 0)), "start excluded: {path:?}");
    assert_eq!(path, vec![(1, 0), (2, 0)]);
}

#[test]
fn it_is_4_connected_so_a_diagonal_costs_two_steps() {
    let g = open(4, 4);
    let path = astar_bool_grid(4, 4, &g, (0, 0), (2, 2)).expect("reachable");
    assert_eq!(path.len(), 4);
    for w in path.windows(2) {
        let (a, b) = (w[0], w[1]);
        let d = (a.0 as i32 - b.0 as i32).abs() + (a.1 as i32 - b.1 as i32).abs();
        assert_eq!(d, 1, "orthogonal steps only, got {a:?} -> {b:?}");
    }
}

#[test]
fn a_blocked_goal_is_unreachable() {
    let mut g = open(4, 4);
    g[2 * 4 + 2] = true;
    assert_eq!(astar_bool_grid(4, 4, &g, (0, 0), (2, 2)), None);
}

#[test]
fn an_out_of_bounds_goal_is_unreachable() {
    let g = open(4, 4);
    assert_eq!(astar_bool_grid(4, 4, &g, (0, 0), (9, 9)), None);
}

#[test]
fn it_routes_around_a_wall_through_the_gap() {
    let (w, h) = (5u32, 5u32);
    let mut g = open(w, h);
    for r in 0..4 {
        g[(r * w + 2) as usize] = true;
    }
    let path = astar_bool_grid(w, h, &g, (0, 0), (4, 0)).expect("gap at row 4");
    assert_eq!(*path.last().unwrap(), (4, 0));
    for &(c, r) in &path {
        assert!(!g[(r as u32 * w + c as u32) as usize], "walked into a wall at {:?}", (c, r));
    }
}

#[test]
fn an_enclosed_goal_is_unreachable() {
    let (w, h) = (5u32, 5u32);
    let mut g = open(w, h);
    for (c, r) in [(3, 0), (3, 1), (3, 2), (4, 2)] {
        g[(r * w + c) as usize] = true;
    }
    assert_eq!(astar_bool_grid(w, h, &g, (0, 0), (4, 0)), None);
}

#[test]
fn the_tile_source_entry_point_agrees_with_the_bool_grid_one() {
    let (w, h) = (6u32, 6u32);
    let mut blocked = open(w, h);
    for r in 1..5 {
        blocked[(r * w + 3) as usize] = true;
    }
    let grid = Grid { w, h, blocked: blocked.clone() };
    let a = astar_tile_grid(&grid, (0, 0), (5, 5), &HashSet::new()).expect("reachable");
    let b = astar_bool_grid(w, h, &blocked, (0, 0), (5, 5)).expect("reachable");
    assert_eq!(a.len(), b.len(), "{a:?} vs {b:?}");
    assert_eq!(*a.last().unwrap(), (5, 5));
}

#[test]
fn extra_blocked_cells_are_respected() {
    let (w, h) = (4u32, 4u32);
    let grid = Grid { w, h, blocked: open(w, h) };
    let extra: HashSet<(i32, i32)> = [(2, 3), (3, 2)].into_iter().collect();
    assert_eq!(astar_tile_grid(&grid, (0, 0), (3, 3), &extra), None);
}

#[test]
fn a_path_is_as_short_as_any() {
    let (w, h) = (7u32, 6u32);
    let mut g = open(w, h);
    for r in 0..5 {
        g[(r * w + 3) as usize] = true;
    }
    let path = astar_bool_grid(w, h, &g, (1, 1), (5, 1)).expect("gap at the bottom");
    assert_eq!(path.len(), 12, "four down, four across, four up");
    assert_eq!(path[0].0.abs_diff(1) + path[0].1.abs_diff(1), 1);
}

#[test]
fn a_short_list_counts_as_blocked() {
    assert_eq!(astar_bool_grid(4, 4, &[], (0, 0), (1, 0)), None);
}
