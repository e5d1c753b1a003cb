use tso_engine::environment::{dry_cell, GridEnv, MoveOutcome};
use tso_engine::grid_world::{bfs_distance, flood_fill, maze_walls, GridWorld};

fn split_walls() -> Vec<Vec<bool>> {
    // column x = 1 is a wall: the left column is cut off from the right one
    vec![vec![false, false, false], vec![true, true, true], vec![false, false, false]]
}

#[test]
fn flood_fill_stops_at_walls() {
    let v = flood_fill(&split_walls(), (0, 0));
    assert_eq!(v, vec![vec![true, true, true], vec![false, false, false], vec![false, false, false]]);
}

#[test]
fn flood_fill_from_wall_marks_nothing() {
    let v = flood_fill(&split_walls(), (1, 1));
    assert!(v.iter().all(|col| col.iter().all(|b| !*b)));
}

#[test]
fn bfs_distance_counts_steps() {
    let d = bfs_distance(&split_walls(), (0, 0));
    assert_eq!(d[0], vec![Some(0), Some(1), Some(2)]);
    assert_eq!(d[1], vec![None, None, None]);
    assert_eq!(d[2], vec![None, None, None]);
}

#[test]
fn bfs_distance_goes_around_walls() {
    // 3×3 with a wall in the middle: the far corner is four steps away
    let w = vec![vec![false, false, false], vec![false, true, false], vec![false, false, false]];
    let d = bfs_distance(&w, (0, 0));
    assert_eq!(d[2][2], Some(4));
    assert_eq!(d[1][1], None);
    assert_eq!(d[2][0], Some(2));
}

#[test]
fn bfs_distance_goal_on_wall_still_zero() {
    let w = vec![vec![true, false], vec![false, false]];
    let d = bfs_distance(&w, (0, 0));
    assert_eq!(d[0][0], Some(0));
    assert_eq!(d[0][1], Some(1));
    assert_eq!(d[1][1], Some(2));
}

#[test]
fn fill_and_distances_agree() {
    let w = vec![
        vec![false, true, false, false],
        vec![false, true, false, true],
        vec![false, false, false, true],
    ];
    let v = flood_fill(&w, (0, 0));
    let d = bfs_distance(&w, (0, 0));
    for x in 0..3 {
        for y in 0..4 {
            assert_eq!(v[x][y], d[x][y].is_some());
        }
    }
}

#[test]
fn empty_room_layout_and_distances() {
    let gw = GridWorld::empty_room();
    assert_eq!((gw.width, gw.height), (5, 5));
    assert_eq!(gw.agent, (1, 1));
    assert_eq!(gw.goal, (3, 3));
    assert_eq!(gw.max_steps, 50);
    assert!(gw.is_wall(0, 2));
    assert!(gw.is_wall(-1, 2));
    assert!(gw.is_wall(2, 5));
    assert!(!gw.is_wall(2, 2));
    assert_eq!(gw.bfs_at_current_pos(), Some(4));
    assert_eq!(gw.distance_at(3, 3), Some(0));
    assert_eq!(gw.distance_at(0, 0), None);
    assert_eq!(gw.max_bfs(), 4);
    assert_eq!(gw.open_cells().len(), 9);
    assert_eq!(gw.open_cells()[0], (1, 1));
    assert_eq!(gw.open_cells()[8], (3, 3));
}

#[test]
fn empty_room_renders() {
    let gw = GridWorld::empty_room();
    assert_eq!(gw.render_ascii(), "#####\n#@..#\n#...#\n#..G#\n#####\n");
}

#[test]
fn whiskers_measure_free_cells() {
    let gw = GridWorld::empty_room();
    assert_eq!(gw.whiskers(), (0, 2, 2, 0));
    let c = GridWorld::corridor();
    assert_eq!(c.whiskers(), (0, 0, 7, 0));
}

#[test]
fn step_flat_moves_and_counts_visits() {
    let mut gw = GridWorld::empty_room();
    assert_eq!(gw.step_flat(3), MoveOutcome::Moved);
    assert_eq!(gw.agent, (2, 1));
    assert_eq!(gw.steps, 1);
    assert_eq!(gw.visit_count[2][1], 1);
    assert_eq!(gw.step_flat(0), MoveOutcome::Bumped);
    assert_eq!(gw.agent, (2, 1));
    assert_eq!(gw.visit_count[2][1], 2);
}

#[test]
fn step_reaches_goal_and_stops() {
    let mut gw = GridWorld::empty_room();
    for a in [3, 3, 1, 1] {
        let o = gw.step(a);
        if gw.agent == (3, 3) {
            assert_eq!(o, MoveOutcome::Reached);
        } else {
            assert_eq!(o, MoveOutcome::Moved);
        }
    }
    assert!(gw.done);
    assert_eq!(gw.prev_pos(), (3, 2));
    assert_eq!(gw.step(0), MoveOutcome::AlreadyDone);
    assert_eq!(gw.steps, 4);
}

#[test]
fn step_times_out_on_budget() {
    let mut gw = GridWorld::straight();
    assert_eq!(gw.max_steps, 50);
    for _ in 0..49 {
        assert_eq!(gw.step(0), MoveOutcome::Bumped);
        assert!(!gw.done);
    }
    assert_eq!(gw.step(0), MoveOutcome::Bumped);
    assert!(gw.done);
}

#[test]
fn step_moved_then_timeout() {
    let mut gw = GridWorld::straight();
    for _ in 0..48 {
        gw.step(0);
    }
    assert_eq!(gw.step(3), MoveOutcome::Moved);
    assert_eq!(gw.step(2), MoveOutcome::TimedOut);
    assert!(gw.done);
}

#[test]
fn reset_restores_start() {
    let mut gw = GridWorld::straight();
    gw.step(3);
    gw.step(3);
    gw.reset();
    assert_eq!(gw.agent, (1, 0));
    assert_eq!(gw.steps, 0);
    assert!(!gw.done);
    assert_eq!(gw.prev_pos(), (1, 0));
}

#[test]
fn straight_and_corridor_distances() {
    let s = GridWorld::straight();
    assert_eq!(s.bfs_at_current_pos(), Some(7));
    assert_eq!(s.max_bfs(), 7);
    let c = GridWorld::corridor();
    assert_eq!(c.bfs_at_current_pos(), Some(14));
    assert_eq!(c.max_steps, 200);
    assert_eq!(c.open_cells().len(), 15);
}

#[test]
fn distances_change_by_at_most_one_between_neighbours() {
    let c = GridWorld::corridor();
    for x in 0..10usize {
        for y in 0..10usize {
            if let Some(d) = c.distance_at(x, y) {
                let mut has_lower = d == 0;
                for (dx, dy) in [(0isize, -1isize), (0, 1), (1, 0), (-1, 0)] {
                    let nx = x as isize + dx;
                    let ny = y as isize + dy;
                    if !c.is_wall(nx, ny) {
                        let nd = c.distance_at(nx as usize, ny as usize).unwrap();
                        assert!(nd <= d + 1 && d <= nd + 1);
                        if nd + 1 == d {
                            has_lower = true;
                        }
                    }
                }
                assert!(has_lower);
            }
        }
    }
}

#[test]
fn random_maze_properties() {
    for _ in 0..20 {
        let gw = GridWorld::random(8, 7);
        assert_eq!((gw.width, gw.height), (8, 7));
        assert_eq!(gw.agent, (1, 1));
        assert!(!gw.walls[1][1]);
        for x in 0..8 {
            assert!(gw.walls[x][0] && gw.walls[x][6]);
        }
        for y in 0..7 {
            assert!(gw.walls[0][y] && gw.walls[7][y]);
        }
        assert_eq!(gw.max_steps, 112);
        // every free cell is reached from the start
        let reach = flood_fill(&gw.walls, (1, 1));
        for x in 0..8 {
            for y in 0..7 {
                assert_eq!(!gw.walls[x][y], reach[x][y]);
            }
        }
        // the goal is reachable and farthest from the start
        let from_start = bfs_distance(&gw.walls, (1, 1));
        let far = from_start.iter().flatten().filter_map(|d| *d).max().unwrap();
        assert_eq!(from_start[gw.goal.0][gw.goal.1], Some(far));
        assert_eq!(gw.distance_at(gw.goal.0, gw.goal.1), Some(0));
        assert_eq!(gw.bfs_at_current_pos(), Some(far));
    }
}

#[test]
fn random_small_maze_budget_floor() {
    let gw = GridWorld::random(3, 3);
    assert_eq!(gw.max_steps, 50);
    assert_eq!(gw.goal, (1, 1));
}

#[test]
fn grid_env_moves_to_water() {
    let mut g = GridEnv::new();
    assert_eq!(g.agent, (2, 2));
    assert_eq!(g.action_space(), 4);
    assert_eq!(g.observation_dim(), 6);
    assert_eq!(g.step_move(0), MoveOutcome::Moved);
    assert_eq!(g.agent, (2, 1));
    assert_eq!(g.step_move(2), MoveOutcome::Reached);
    assert!(g.done);
    assert_eq!(g.step_move(3), MoveOutcome::AlreadyDone);
    assert_eq!(g.step_count, 2);
}

#[test]
fn grid_env_bumps_and_times_out() {
    let mut g = GridEnv { agent: (0, 0), step_count: 0, done: false };
    assert_eq!(g.step_move(0), MoveOutcome::Bumped);
    assert_eq!(g.agent, (0, 0));
    assert!(!g.done);
    let mut g = GridEnv { agent: (2, 2), step_count: 149, done: false };
    assert_eq!(g.step_move(1), MoveOutcome::TimedOut);
    assert!(g.done);
    let mut g = GridEnv { agent: (4, 4), step_count: 149, done: false };
    assert_eq!(g.step_move(3), MoveOutcome::Bumped);
    assert!(g.done);
    let mut g = GridEnv { agent: (2, 2), step_count: 0, done: false };
    assert_eq!(g.step_move(7), MoveOutcome::Moved);
    assert_eq!(g.agent, (2, 2));
}

#[test]
fn grid_env_perception_parts() {
    let g = GridEnv::new();
    assert_eq!(g.wall_rays(), (2, 2, 2, 2));
    assert_eq!(g.water_sq_dist(), Some(2));
    let g = GridEnv { agent: (4, 0), step_count: 0, done: false };
    assert_eq!(g.wall_rays(), (0, 4, 4, 0));
    assert_eq!(g.water_sq_dist(), None);
    let g = GridEnv { agent: (3, 1), step_count: 0, done: false };
    assert_eq!(g.water_sq_dist(), Some(4));
}

#[test]
fn grid_env_respawns_on_dry_cells() {
    let mut g = GridEnv::new();
    for _ in 0..200 {
        g.step_count = 33;
        g.done = true;
        g.respawn();
        let (x, y) = g.agent;
        assert!(x < 5 && y < 5);
        assert!(![(1, 1), (3, 3), (1, 4)].contains(&(x, y)));
        assert_eq!(g.step_count, 0);
        assert!(!g.done);
    }
}

fn draws_with(w: usize, h: usize, walls: &[(usize, usize)]) -> Vec<Vec<bool>> {
    let mut d = vec![vec![false; h]; w];
    for &(x, y) in walls {
        d[x][y] = true;
    }
    d
}

fn bordered_grid(w: usize, h: usize, inner: &[(usize, usize)]) -> Vec<Vec<bool>> {
    let mut g = vec![vec![false; h]; w];
    for x in 0..w {
        for y in 0..h {
            g[x][y] = x == 0 || y == 0 || x == w - 1 || y == h - 1 || inner.contains(&(x, y));
        }
    }
    g[1][1] = false;
    g
}

#[test]
fn maze_walls_knocks_down_a_separating_wall() {
    // a wall down column 2 cuts column 1 off from column 3: one pass opens it
    let draws = draws_with(5, 5, &[(2, 1), (2, 2), (2, 3)]);
    assert_eq!(maze_walls(5, 5, &draws), bordered_grid(5, 5, &[]));
}

#[test]
fn maze_walls_keeps_a_wall_inside_the_reached_region() {
    let draws = draws_with(5, 5, &[(3, 3)]);
    assert_eq!(maze_walls(5, 5, &draws), bordered_grid(5, 5, &[(3, 3)]));
}

#[test]
fn maze_walls_walls_up_a_pocket_behind_two_layers() {
    // two wall columns: neither touches both the reached region and free
    // unreached floor, so no pass opens them; the floor beyond is walled up
    let inner = [(2, 1), (2, 2), (2, 3), (3, 1), (3, 2), (3, 3)];
    let walls = maze_walls(7, 5, &draws_with(7, 5, &inner));
    let pocket = [(4, 1), (4, 2), (4, 3), (5, 1), (5, 2), (5, 3)];
    let all: Vec<(usize, usize)> = inner.iter().chain(pocket.iter()).copied().collect();
    assert_eq!(walls, bordered_grid(7, 5, &all));
}

#[test]
fn maze_walls_is_connected_for_a_thin_maze() {
    let walls = maze_walls(7, 3, &draws_with(7, 3, &[(2, 1), (3, 1)]));
    assert_eq!(walls, bordered_grid(7, 3, &[(2, 1), (3, 1), (4, 1), (5, 1)]));
    let reach = flood_fill(&walls, (1, 1));
    for x in 0..7 {
        for y in 0..3 {
            assert_eq!(!walls[x][y], reach[x][y]);
        }
    }
}

#[test]
fn searches_accept_columns_longer_than_the_first() {
    let walls = vec![vec![false, false], vec![false, true, false], vec![false, false, true]];
    let reach = flood_fill(&walls, (0, 0));
    assert_eq!(reach, vec![vec![true, true], vec![true, false], vec![true, true]]);
    let dist = bfs_distance(&walls, (0, 0));
    assert_eq!(dist, vec![vec![Some(0), Some(1)], vec![Some(1), None], vec![Some(2), Some(3)]]);
}

#[test]
fn maze_walls_ignores_border_draws_and_frees_the_start() {
    let draws = vec![vec![true; 4]; 4];
    let walls = maze_walls(4, 4, &draws);
    // (1,1) is freed; (1,2) and (2,1) touch it but no free unreached floor, so all walls stay
    assert!(!walls[1][1]);
    assert_eq!(walls, bordered_grid(4, 4, &[(1, 2), (2, 1), (2, 2)]));
}

#[test]
fn dry_cells_are_counted_column_by_column() {
    assert_eq!(dry_cell(0), (0, 0));
    assert_eq!(dry_cell(5), (1, 0));
    assert_eq!(dry_cell(6), (1, 2));
    assert_eq!(dry_cell(7), (1, 3));
    assert_eq!(dry_cell(8), (2, 0));
    assert_eq!(dry_cell(15), (3, 2));
    assert_eq!(dry_cell(16), (3, 4));
    assert_eq!(dry_cell(21), (4, 4));
    let all: Vec<(usize, usize)> = (0..22).map(dry_cell).collect();
    for w in [(1, 1), (3, 3), (1, 4)] {
        assert!(!all.contains(&w));
    }
}
