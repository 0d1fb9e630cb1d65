//! The sidewinder generator: each row is cut into runs joined eastward, and
//! every run is joined to the row above through one of its cells.
use crate::maze::{lemma_index_bound, Cell, Direction, Maze, MazeModel};
use crate::carving::{
    lemma_connected, lemma_carved_complete,
    lemma_run_closed_at_root, lemma_run_closed_north, lemma_run_east, lemma_run_joined_all,
    lemma_top_row_step, lemma_with_link_extends, lemma_with_link_grid, top_row_east,
};
use crate::laws::lemma_index_round_trip;
use crate::random::{coin, gen_below, pick};
use vstd::prelude::*;

verus! {

pub struct Sidewinder;

/// The maze and the length of the open run after the sidewinder visit of its
/// first `k` cells in row-major order. A run is closed at the east edge, or
/// below the top row where `coins[i]` is set; it is closed by linking its member
/// number `draws[i]` (modulo its length) to that member's north neighbour.
/// Otherwise the cell is linked to its east neighbour.
pub open spec fn sidewinder_upto(m: MazeModel, coins: Seq<bool>, draws: Seq<usize>, k: int) -> (
    MazeModel,
    int,
)
    decreases k,
{
    if k <= 0 {
        (m, 0)
    } else {
        let (prev, len0) = sidewinder_upto(m, coins, draws, k - 1);
        let c = m.cell_at(k - 1);
        let len = len0 + 1;
        let at_east = m.neighbour(c, Direction::East) is None;
        let at_north = m.neighbour(c, Direction::North) is None;
        if at_east || (!at_north && coins[k - 1]) {
            let member = Cell { x: (c.x - len0 + draws[k - 1] as int % len) as usize, y: c.y };
            match m.neighbour(member, Direction::North) {
                Some(n) => (prev.with_link(member, n), 0),
                None => (prev, 0),
            }
        } else {
            (prev.with_link(c, m.neighbour(c, Direction::East).unwrap()), len)
        }
    }
}

impl Sidewinder {
    /// Visits the rows top to bottom and each row left to right, growing a run
    /// of cells; at the east edge, or at random below the top row, the run is
    /// closed by linking one of its cells, chosen at random, to its north
    /// neighbour; otherwise the cell is linked to its east neighbour.
    pub fn on(maze: Maze) -> (r: Maze)
        requires
            maze.wf(),
        ensures
            r.wf(),
            r@.width == maze@.width,
            r@.height == maze@.height,
            maze@.size() <= 1 ==> r@ == maze@,
            maze@.size() >= 1 ==> r@.link_total() == maze@.link_total() + 2 * (maze@.size() - 1),
            maze@.size() >= 2 ==> forall|c: Cell| r@.contains_cell(c) ==> #[trigger] r@.links_of(c).len() > 0,
            maze@.size() >= 1 ==> r@.all_reach(r@.width - 1),
            maze@.size() >= 1 ==> r@.connected(),
            maze@.grid_links() ==> r@.grid_links(),
            forall|x: usize|
                x + 1 < maze@.width && 0 < maze@.height ==> #[trigger] r@.linked(
                    Cell { x, y: 0 },
                    Cell { x: (x + 1) as usize, y: 0 },
                ),
            exists|coins: Seq<bool>, draws: Seq<usize>|
                r@ == sidewinder_upto(maze@, coins, draws, maze@.size() as int).0,
    {
        let mut rng = rand::thread_rng();
        let w = maze.width();
        let h = maze.height();
        let n = w * h;
        let mut coins: Vec<bool> = Vec::new();
        let mut i: usize = 0;
        while i < n
            invariant
                i <= n,
                coins@.len() == i,
            decreases n - i,
        {
            coins.push(coin(&mut rng));
            i = i + 1;
        }
        // Each close-out draws uniformly below the length of the run it closes.
        let mut draws: Vec<usize> = Vec::new();
        let mut y: usize = 0;
        while y < h
            invariant
                n == w * h,
                coins@.len() == n,
                y <= h,
                draws@.len() == y * w,
            decreases h - y,
        {
            let mut len: usize = 0;
            let mut x: usize = 0;
            while x < w
                invariant
                    n == w * h,
                    coins@.len() == n,
                    y < h,
                    x <= w,
                    len <= x,
                    draws@.len() == y * w + x,
                decreases w - x,
            {
                proof {
                    assert(y * w + x < w * h) by (nonlinear_arith)
                        requires
                            x < w,
                            y < h,
                    ;
                }
                len = len + 1;
                if x + 1 == w || (y > 0 && coins[y * w + x]) {
                    draws.push(gen_below(&mut rng, len));
                    len = 0;
                } else {
                    draws.push(0);
                }
                x = x + 1;
            }
            y = y + 1;
            proof {
                assert(draws@.len() == y * w) by (nonlinear_arith)
                    requires
                        draws@.len() == (y - 1) * w + w,
                ;
            }
        }
        proof {
            assert(draws@.len() == n) by (nonlinear_arith)
                requires
                    draws@.len() == h * w,
                    n == w * h,
            ;
        }
        let ghost m0 = maze@;
        let r = Self::carve(maze, &coins, &draws);
        proof {
            if m0.size() >= 1 {
                assert(r@.width >= 1) by (nonlinear_arith)
                    requires
                        m0.size() == r@.width * r@.height,
                        m0.size() >= 1,
                ;
                assert(r@.width <= m0.size()) by (nonlinear_arith)
                    requires
                        m0.size() == r@.width * r@.height,
                        m0.size() >= 1,
                ;
                lemma_connected(r@, r@.width - 1);
            }
        }
        r
    }

    /// The sidewinder visit with the choices given: below the top row, a run
    /// not at the east edge is closed at cell `i` when `coins[i]` is set, and a
    /// run closed at cell `i` is joined north through its member number
    /// `draws[i]`, modulo its length.
    #[verifier::rlimit(100)]
    #[verifier::spinoff_prover]
    pub fn carve(maze: Maze, coins: &Vec<bool>, draws: &Vec<usize>) -> (r: Maze)
        requires
            maze.wf(),
            coins@.len() == maze@.size(),
            draws@.len() == maze@.size(),
        ensures
            r@ == sidewinder_upto(maze@, coins@, draws@, maze@.size() as int).0,
            maze@.grid_links() ==> r@.grid_links(),
            forall|x: usize|
                x + 1 < maze@.width && 0 < maze@.height ==> #[trigger] r@.linked(
                    Cell { x, y: 0 },
                    Cell { x: (x + 1) as usize, y: 0 },
                ),
            r.wf(),
            r@.width == maze@.width,
            r@.height == maze@.height,
            maze@.size() <= 1 ==> r@ == maze@,
            maze@.size() >= 1 ==> r@.link_total() == maze@.link_total() + 2 * (maze@.size() - 1),
            maze@.size() >= 2 ==> forall|c: Cell| r@.contains_cell(c) ==> #[trigger] r@.links_of(c).len() > 0,
            maze@.size() >= 1 ==> r@.all_reach(r@.width - 1),
    {
        let mut maze = maze;
        let ghost m0 = maze@;
        let w = maze.width();
        let h = maze.height();
        let ghost mut k: int = 0;
        let mut y: usize = 0;
        while y < h
            invariant
                maze.wf(),
                w == maze@.width,
                h == maze@.height,
                m0.adj.len() == m0.size(),
                y <= h,
                k == y * w,
                coins@.len() == m0.size(),
                draws@.len() == m0.size(),
                sidewinder_upto(m0, coins@, draws@, k) == (maze@, 0int),
                m0.grid_links() ==> maze@.grid_links(),
                top_row_east(maze@, 0, y as int),
                maze@.carved(m0, k),
                maze@.run_joined(w - 1, k, 0),
            decreases h - y,
        {
            let mut run: Vec<Cell> = Vec::new();
            let mut x: usize = 0;
            while x < w
                invariant
                    maze.wf(),
                    w == maze@.width,
                    h == maze@.height,
                    m0.adj.len() == m0.size(),
                    y < h,
                    x <= w,
                    k == y * w + x,
                    coins@.len() == m0.size(),
                    draws@.len() == m0.size(),
                    sidewinder_upto(m0, coins@, draws@, k) == (maze@, run@.len() as int),
                    m0.grid_links() ==> maze@.grid_links(),
                    top_row_east(maze@, x as int, y as int),
                    maze@.carved(m0, k),
                    run@.len() <= x,
                    forall|i: int|
                        0 <= i < run@.len() ==> #[trigger] run@[i] == (Cell {
                            x: (x - run@.len() + i) as usize,
                            y,
                        }),
                    run@.len() > 0 && x < w ==> maze@.adj[k].len() > 0,
                    x == w ==> run@.len() == 0,
                    maze@.run_joined(w - 1, k, run@.len() as int),
                decreases w - x,
            {
                let cell = Cell::new(x, y);
                proof {
                    assert(y >= 1 ==> k >= w) by (nonlinear_arith)
                        requires
                            k == y * w + x,
                    ;
                    assert(y == 0 ==> k == x) by (nonlinear_arith)
                        requires
                            k == y * w + x,
                    ;
                    assert(maze@.index_of(cell) == k);
                    lemma_index_bound(cell, maze@.width, maze@.height);
                    lemma_index_round_trip(m0, cell);
                }
                let idx = y * w + x;
                let ghost was_empty = run@.len() == 0;
                let ghost len = run@.len() as int;
                run.push(cell);
                let nb = maze.neighbours(&cell);
                let at_eastern_boundary = !nb.contains_key(&Direction::East);
                let at_northern_boundary = !nb.contains_key(&Direction::North);
                let mut should_close_out = at_eastern_boundary;
                if !should_close_out && !at_northern_boundary {
                    should_close_out = coins[idx];
                }
                let ghost before = maze@;
                if should_close_out {
                    if let Some(member) = pick(run.as_slice(), draws[idx]) {
                        let member = *member;
                        proof {
                            let i = draws@[k] as int % run@.len() as int;
                            assert(run@[i] == member);
                            assert(member.y == y && member.x < w);
                            assert(maze@.index_of(member) == k - len + i);
                            if was_empty {
                                assert(member == cell);
                            }
                        }
                        if let Some(north) = maze.neighbours(&member).get(&Direction::North) {
                            maze.link(&member, &north);
                            proof {
                                assert(maze@.adj[maze@.index_of(member)].len() > 0);
                                lemma_index_bound(member, maze@.width, maze@.height);
                                lemma_index_bound(north, maze@.width, maze@.height);
                                lemma_with_link_extends(before, member, north);
                                let mi = maze@.index_of(member);
                                let t = maze@.index_of(north);
                                assert(t == mi - w) by (nonlinear_arith)
                                    requires
                                        t == north.y * w + north.x,
                                        mi == member.y * w + member.x,
                                        north.y == member.y - 1,
                                        north.x == member.x,
                                ;
                                assert(maze@.edge(mi, t));
                                lemma_run_closed_north(before, maze@, w - 1, k, len, mi, t);
                                if m0.grid_links() {
                                    lemma_with_link_grid(before, member, Direction::North);
                                }
                            }
                        } else {
                            proof {
                                lemma_run_closed_at_root(maze@, k, len);
                            }
                        }
                    }
                    run.clear();
                } else if let Some(east) = nb.get(&Direction::East) {
                    maze.link(&cell, &east);
                    proof {
                        assert(maze@.index_of(east) == k + 1);
                        lemma_index_bound(east, maze@.width, maze@.height);
                        lemma_with_link_extends(before, cell, east);
                        assert(maze@.edge(k, k + 1));
                        assert(maze@.edge(k + 1, k));
                        lemma_run_east(before, maze@, w - 1, k, len);
                        if m0.grid_links() {
                            lemma_with_link_grid(before, cell, Direction::East);
                        }
                        assert(maze@.adj[k].len() > 0);
                        assert(maze@.adj[k + 1].len() > 0);
                    }
                }
                proof {
                    if maze@ != before {
                        assert(before.extended_by(maze@));
                    }
                    lemma_top_row_step(before, maze@, x as int, y as int);
                    let m = maze@;
                    assert forall|j: int| 0 <= j < k + 1 && j != w - 1 implies (#[trigger] m.adj[j]).len() > 0 by {
                        if j < k {
                            assert(before.adj[j].len() > 0);
                        }
                    }
                }
                x = x + 1;
                proof {
                    k = k + 1;
                }
            }
            y = y + 1;
            proof {
                assert(k == y * w) by (nonlinear_arith)
                    requires
                        k == (y - 1) * w + w,
                ;
            }
        }
        proof {
            assert(k == m0.size()) by (nonlinear_arith)
                requires
                    k == h * w,
                    m0.size() == w * h,
            ;
            lemma_carved_complete(maze@, m0);
            lemma_run_joined_all(maze@, w - 1);
        }
        maze
    }
}

} // verus!
