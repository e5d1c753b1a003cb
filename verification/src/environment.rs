use vstd::prelude::*;
use crate::chance::random_index;

verus! {

/// Width of the 5×5 water world.
const W: usize = 5;
/// Height of the 5×5 water world.
const H: usize = 5;
/// Number of moves: up, down, left, right.
const NA: usize = 4;
/// Length of an observation: four rays, a zero slot and the water signal.
const PDIM: usize = 6;
/// Step budget of an episode.
const MAXS: usize = 150;

/// How a step of a grid agent ended.
#[derive(Clone, Copy, Debug, PartialEq, Eq)]
pub enum MoveOutcome {
    /// The episode was already over; nothing changed.
    AlreadyDone,
    /// The move would leave the walkable area; the agent stayed.
    Bumped,
    /// The agent moved onto its target cell.
    Reached,
    /// The agent moved and the step budget ran out.
    TimedOut,
    /// The agent moved; the episode goes on.
    Moved,
}

/// The displacement of a move: 0 up, 1 down, 2 left, 3 right, anything else none.
pub open spec fn move_delta(action: usize) -> (int, int) {
    if action == 0 {
        (0, -1)
    } else if action == 1 {
        (0, 1)
    } else if action == 2 {
        (-1, 0)
    } else if action == 3 {
        (1, 0)
    } else {
        (0, 0)
    }
}

/// The water cells of the 5×5 world: (1,1), (3,3) and (1,4).
pub open spec fn is_water(x: int, y: int) -> bool {
    (x == 1 && y == 1) || (x == 3 && y == 3) || (x == 1 && y == 4)
}

/// The water cells, in the order in which perception looks at them.
pub open spec fn water_cell(i: int) -> (int, int) {
    if i == 0 {
        (1, 1)
    } else if i == 1 {
        (3, 3)
    } else {
        (1, 4)
    }
}

/// Squared euclidean distance between two cells.
pub open spec fn sq_dist(a: (int, int), b: (int, int)) -> int {
    (a.0 - b.0) * (a.0 - b.0) + (a.1 - b.1) * (a.1 - b.1)
}

/// Whether a cell lies in the 5×5 world.
pub open spec fn in_world(x: int, y: int) -> bool {
    0 <= x < 5 && 0 <= y < 5
}

/// How many cells a ray from `(x, y)` in direction `(dx, dy)` crosses before
/// leaving the world: up, down, left and right.
pub open spec fn ray_len(x: int, y: int, dx: int, dy: int) -> int {
    if dx == 0 && dy == -1 {
        if 0 <= x < 5 && 0 <= y <= 5 { y } else { 0 }
    } else if dx == 0 && dy == 1 {
        if 0 <= x < 5 && 0 <= y + 1 < 5 { 4 - y } else { 0 }
    } else if dx == -1 && dy == 0 {
        if 0 <= y < 5 && 0 <= x <= 5 { x } else { 0 }
    } else if dx == 1 && dy == 0 {
        if 0 <= y < 5 && 0 <= x + 1 < 5 { 4 - x } else { 0 }
    } else {
        0
    }
}

/// The squared distance to the first water cell (in perception order) that is
/// within distance two of `p`, if any.
pub open spec fn near_water_sq(p: (int, int)) -> Option<int> {
    if sq_dist(p, water_cell(0)) <= 4 {
        Some(sq_dist(p, water_cell(0)))
    } else if sq_dist(p, water_cell(1)) <= 4 {
        Some(sq_dist(p, water_cell(1)))
    } else if sq_dist(p, water_cell(2)) <= 4 {
        Some(sq_dist(p, water_cell(2)))
    } else {
        None
    }
}

/// Coordinates small enough for the signed arithmetic of perception and moves.
pub open spec fn agent_fits(agent: (usize, usize)) -> bool {
    &&& agent.0 < isize::MAX
    &&& agent.1 < isize::MAX
    &&& forall|i: int| 0 <= i < 3 ==> sq_dist((agent.0 as int, agent.1 as int), #[trigger] water_cell(i)) <= isize::MAX
}

/// The 5×5 water world: the agent looks for one of three water cells.
pub struct GridEnv {
    pub agent: (usize, usize),
    pub step_count: usize,
    pub done: bool,
}

impl GridEnv {
    pub fn new() -> (g: Self)
        ensures
            g.agent == (2usize, 2usize),
            g.step_count == 0,
            !g.done,
    {
        GridEnv { agent: (2, 2), step_count: 0, done: false }
    }

    /// Number of possible moves.
    pub fn action_space(&self) -> (n: usize)
        ensures
            n == 4,
    {
        NA
    }

    /// Length of an observation.
    pub fn observation_dim(&self) -> (n: usize)
        ensures
            n == 6,
    {
        PDIM
    }

    /// Cells crossed by the rays up, down, left and right from the agent
    /// before they leave the world.
    pub fn wall_rays(&self) -> (r: (usize, usize, usize, usize))
        ensures
            r.0 == ray_len(self.agent.0 as int, self.agent.1 as int, 0, -1),
            r.1 == ray_len(self.agent.0 as int, self.agent.1 as int, 0, 1),
            r.2 == ray_len(self.agent.0 as int, self.agent.1 as int, -1, 0),
            r.3 == ray_len(self.agent.0 as int, self.agent.1 as int, 1, 0),
    {
        let (x, y) = self.agent;
        let up = if x < W && y <= H { y } else { 0 };
        let down = if x < W && y < H - 1 { H - 1 - y } else { 0 };
        let left = if y < H && x <= W { x } else { 0 };
        let right = if y < H && x < W - 1 { W - 1 - x } else { 0 };
        (up, down, left, right)
    }

    /// The squared distance from the agent to the first water cell within
    /// distance two, looking at (1,1), then (3,3), then (1,4).
    pub fn water_sq_dist(&self) -> (r: Option<usize>)
        requires
            agent_fits(self.agent),
        ensures
            match near_water_sq((self.agent.0 as int, self.agent.1 as int)) {
                Some(d) => r == Some(d as usize),
                None => r is None,
            },
    {
        let (x, y) = self.agent;
        let waters: [(usize, usize); 3] = [(1, 1), (3, 3), (1, 4)];
        let mut i: usize = 0;
        while i < 3
            invariant
                i <= 3,
                waters@ == seq![(1usize, 1usize), (3usize, 3usize), (1usize, 4usize)],
                agent_fits(self.agent),
                (x, y) == self.agent,
                forall|j: int| 0 <= j < i ==> sq_dist((x as int, y as int), #[trigger] water_cell(j)) > 4,
            decreases 3 - i,
        {
            let (wx, wy) = waters[i];
            assert(water_cell(i as int) == (wx as int, wy as int));
            let ddx: u128 = if x >= wx { (x - wx) as u128 } else { (wx - x) as u128 };
            let ddy: u128 = if y >= wy { (y - wy) as u128 } else { (wy - y) as u128 };
            assert(ddx * ddx == (x as int - wx as int) * (x as int - wx as int)) by (nonlinear_arith)
                requires
                    ddx == x as int - wx as int || ddx == wx as int - x as int,
            {
            }
            assert(ddy * ddy == (y as int - wy as int) * (y as int - wy as int)) by (nonlinear_arith)
                requires
                    ddy == y as int - wy as int || ddy == wy as int - y as int,
            {
            }
            assert(0 <= ddx * ddx && 0 <= ddy * ddy) by (nonlinear_arith);
            let sq = ddx * ddx + ddy * ddy;
            assert(sq == sq_dist((x as int, y as int), water_cell(i as int)));
            if sq <= 4 {
                return Some(sq as usize);
            }
            i += 1;
        }
        None
    }

    /// Applies a move: 0 up, 1 down, 2 left, 3 right, anything else stays.
    /// A move off the world is a bump; reaching water ends the episode; so
    /// does running out of the 150-step budget.
    pub fn step_move(&mut self, action: usize) -> (o: MoveOutcome)
        requires
            !old(self).done ==> old(self).step_count < usize::MAX,
            old(self).agent.0 < isize::MAX,
            old(self).agent.1 < isize::MAX,
        ensures
            old(self).done ==> o == MoveOutcome::AlreadyDone && *final(self) == *old(self),
            !old(self).done ==> ({
                let n = old(self).step_count + 1;
                let nx = old(self).agent.0 + move_delta(action).0;
                let ny = old(self).agent.1 + move_delta(action).1;
                &&& final(self).step_count == n
                &&& if !in_world(nx, ny) {
                    &&& o == MoveOutcome::Bumped
                    &&& final(self).agent == old(self).agent
                    &&& final(self).done == (n >= 150)
                } else {
                    &&& final(self).agent == (nx as usize, ny as usize)
                    &&& if is_water(nx, ny) {
                        o == MoveOutcome::Reached && final(self).done
                    } else if n >= 150 {
                        o == MoveOutcome::TimedOut && final(self).done
                    } else {
                        o == MoveOutcome::Moved && !final(self).done
                    }
                }
            }),
    {
        if self.done {
            return MoveOutcome::AlreadyDone;
        }
        self.step_count += 1;
        let (x, y) = self.agent;
        let mut off = false;
        let mut nx = x;
        let mut ny = y;
        if action == 0 {
            if y == 0 { off = true; } else { ny = y - 1; }
        } else if action == 1 {
            ny = y + 1;
        } else if action == 2 {
            if x == 0 { off = true; } else { nx = x - 1; }
        } else if action == 3 {
            nx = x + 1;
        }
        if off || nx >= W || ny >= H {
            self.done = self.step_count >= MAXS;
            return MoveOutcome::Bumped;
        }
        self.agent = (nx, ny);
        if (nx == 1 && ny == 1) || (nx == 3 && ny == 3) || (nx == 1 && ny == 4) {
            self.done = true;
            MoveOutcome::Reached
        } else if self.step_count >= MAXS {
            self.done = true;
            MoveOutcome::TimedOut
        } else {
            MoveOutcome::Moved
        }
    }

    /// Starts a new episode on a dry cell drawn uniformly at random.
    pub fn respawn(&mut self)
        ensures
            exists|k: int| 0 <= k < dry_cells().len() && final(self).agent == #[trigger] dry_cells()[k],
            in_world(final(self).agent.0 as int, final(self).agent.1 as int),
            !is_water(final(self).agent.0 as int, final(self).agent.1 as int),
            final(self).step_count == 0,
            !final(self).done,
    {
        let k = random_index(22);
        let cell = dry_cell(k);
        proof {
            let p = |c: (usize, usize)| dry(c);
            world_cells(25).lemma_filter_pred(p, k as int);
            assert(dry_cells().contains(cell));
            world_cells(25).lemma_filter_contains_rev(p, cell);
            let i = choose|i: int| 0 <= i < 25 && world_cells(25)[i] == cell;
            assert(cell == ((i / 5) as usize, (i % 5) as usize));
        }
        self.agent = cell;
        self.step_count = 0;
        self.done = false;
    }
}

/// The first `n` cells of the 5×5 world, column by column.
pub open spec fn world_cells(n: int) -> Seq<(usize, usize)> {
    Seq::new(n as nat, |i: int| ((i / 5) as usize, (i % 5) as usize))
}

/// Whether a cell is no water.
pub open spec fn dry(c: (usize, usize)) -> bool {
    !is_water(c.0 as int, c.1 as int)
}

/// The 22 dry cells of the world, column by column.
pub open spec fn dry_cells() -> Seq<(usize, usize)> {
    world_cells(25).filter(|c: (usize, usize)| dry(c))
}

/// The `k`-th dry cell of the world, counting column by column from 0.
pub fn dry_cell(k: usize) -> (c: (usize, usize))
    requires
        k < 22,
    ensures
        dry_cells().len() == 22,
        c == dry_cells()[k as int],
{
    let mut cells: Vec<(usize, usize)> = Vec::new();
    let mut i: usize = 0;
    while i < W * H
        invariant
            i <= W * H,
            cells@ == world_cells(i as int).filter(|c: (usize, usize)| dry(c)),
            cells@.len() == i - (if i > 6 { 1int } else { 0 }) - (if i > 9 { 1int } else { 0 }) - (if i > 18 { 1int } else { 0 }),
        decreases W * H - i,
    {
        let x = i / H;
        let y = i % H;
        proof {
            reveal(Seq::filter);
            assert(world_cells(i + 1).drop_last() =~= world_cells(i as int));
            assert(world_cells(i + 1).last() == (x, y));
        }
        if !((x == 1 && y == 1) || (x == 3 && y == 3) || (x == 1 && y == 4)) {
            cells.push((x, y));
        }
        i += 1;
    }
    cells[k]
}


/// The water reading looks at (1,1), then (3,3), then (1,4), and reports the
/// squared distance to the first of them within distance two: (1,1) wins
/// whenever it is that near, (3,3) only when (1,1) is not, (1,4) only when
/// neither is; with none that near there is no reading.
pub proof fn lemma_water_reading_order(p: (int, int))
    ensures
        ({
            let d11 = (p.0 - 1) * (p.0 - 1) + (p.1 - 1) * (p.1 - 1);
            let d33 = (p.0 - 3) * (p.0 - 3) + (p.1 - 3) * (p.1 - 3);
            let d14 = (p.0 - 1) * (p.0 - 1) + (p.1 - 4) * (p.1 - 4);
            &&& d11 <= 4 ==> near_water_sq(p) == Some(d11)
            &&& d11 > 4 && d33 <= 4 ==> near_water_sq(p) == Some(d33)
            &&& d11 > 4 && d33 > 4 && d14 <= 4 ==> near_water_sq(p) == Some(d14)
            &&& near_water_sq(p) is None <==> (d11 > 4 && d33 > 4 && d14 > 4)
            &&& near_water_sq(p) matches Some(d) ==> 0 <= d <= 4
        }),
{
    let d11 = (p.0 - 1) * (p.0 - 1) + (p.1 - 1) * (p.1 - 1);
    let d33 = (p.0 - 3) * (p.0 - 3) + (p.1 - 3) * (p.1 - 3);
    let d14 = (p.0 - 1) * (p.0 - 1) + (p.1 - 4) * (p.1 - 4);
    assert forall|a: int, b: int| 0 <= #[trigger] (a * a + b * b) by {
        assert(0 <= a * a) by (nonlinear_arith);
        assert(0 <= b * b) by (nonlinear_arith);
    }
    assert(0 <= d11 && 0 <= d33 && 0 <= d14);
}

/// Every dry cell of the world is one of the cells a respawn can pick, and
/// none of them is water.
pub proof fn lemma_respawn_cells_are_all_dry_cells(c: (usize, usize))
    ensures
        (0 <= c.0 < 5 && 0 <= c.1 < 5 && !is_water(c.0 as int, c.1 as int)) <==> dry_cells().contains(c),
{
    let p = |c: (usize, usize)| dry(c);
    if 0 <= c.0 < 5 && 0 <= c.1 < 5 && !is_water(c.0 as int, c.1 as int) {
        let i = c.0 * 5 + c.1;
        assert(world_cells(25)[i as int] == c);
        world_cells(25).lemma_filter_contains(p, i as int);
    }
    if dry_cells().contains(c) {
        world_cells(25).lemma_filter_contains_rev(p, c);
        let i = choose|i: int| 0 <= i < 25 && world_cells(25)[i] == c;
        assert(c == ((i / 5) as usize, (i % 5) as usize));
        let k = choose|k: int| 0 <= k < dry_cells().len() && dry_cells()[k] == c;
        world_cells(25).lemma_filter_pred(p, k);
    }
}

} // verus!
