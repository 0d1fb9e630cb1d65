//! The binary-tree generator: every cell links to its north or its east neighbour.
use crate::laws::lemma_index_round_trip;
use crate::maze::{lemma_index_bound, Cell, Direction, Maze, MazeModel};
use crate::carving::{
    lemma_connected, lemma_carved_complete,
    lemma_joined_all, lemma_joined_at_root, lemma_joined_east, lemma_joined_north,
    lemma_joined_row_done, lemma_linked_kept, lemma_with_link_extends, lemma_with_link_grid,
};
use crate::random::{draws_below, pick};
use vstd::prelude::*;

verus! {

pub struct BinaryTree;

/// The neighbours that cell `c` may be linked to: north, then east, where they exist.
pub open spec fn north_east(m: MazeModel, c: Cell) -> Seq<Cell> {
    let n = m.neighbour(c, Direction::North);
    let e = m.neighbour(c, Direction::East);
    (if n is Some { seq![n.unwrap()] } else { Seq::empty() }) + (if e is Some {
        seq![e.unwrap()]
    } else {
        Seq::empty()
    })
}

/// The maze after the binary-tree visit of its first `k` cells, where cell `i`
/// is linked to its north-east candidate number `draws[i]` (modulo their count).
pub open spec fn binary_tree_upto(m: MazeModel, draws: Seq<usize>, k: int) -> MazeModel
    decreases k,
{
    if k <= 0 {
        m
    } else {
        let prev = binary_tree_upto(m, draws, k - 1);
        let c = m.cell_at(k - 1);
        let cands = north_east(m, c);
        if cands.len() == 0 {
            prev
        } else {
            prev.with_link(c, cands[draws[k - 1] as int % cands.len() as int])
        }
    }
}

/// After the visit of every cell before `(x, y)`: the top row is linked east
/// up to `x` (throughout once a lower row is reached), and the rightmost
/// column is linked north on every row above `y`, and on row `y` once it is done.
pub open spec fn corridors(m: MazeModel, x: int, y: int) -> bool {
    let w = m.width as int;
    &&& forall|i: usize|
        i + 1 < w && (0 < y || i < x) ==> #[trigger] m.linked(
            Cell { x: i, y: 0 },
            Cell { x: (i + 1) as usize, y: 0 },
        )
    &&& forall|j: usize|
        0 < j && w > 0 && (j < y || (j == y && x == w)) ==> #[trigger] m.linked(
            Cell { x: (w - 1) as usize, y: j },
            Cell { x: (w - 1) as usize, y: (j - 1) as usize },
        )
}

proof fn lemma_corridors_next_row(m: MazeModel, y: int)
    requires
        corridors(m, m.width as int, y),
    ensures
        corridors(m, 0, y + 1),
{
}

proof fn lemma_corridors_step(m: MazeModel, m2: MazeModel, x: usize, y: usize, chosen: Cell)
    requires
        m.adj.len() == m.size(),
        m.size() <= usize::MAX,
        m.extended_by(m2),
        m2.width == m.width,
        m2.height == m.height,
        x < m.width,
        y < m.height,
        m2.linked(Cell { x, y }, chosen),
        y == 0 && x + 1 < m.width ==> chosen == (Cell { x: (x + 1) as usize, y: 0 }),
        y > 0 && x + 1 == m.width ==> chosen == (Cell { x, y: (y - 1) as usize }),
        corridors(m, x as int, y as int),
    ensures
        corridors(m2, x + 1, y as int),
{
    let w = m.width as int;
    assert forall|i: usize| i + 1 < w && (0 < y || i < x + 1) implies #[trigger] m2.linked(
        Cell { x: i, y: 0 },
        Cell { x: (i + 1) as usize, y: 0 },
    ) by {
        if i < x || 0 < y {
            lemma_linked_kept(m, m2, Cell { x: i, y: 0 }, Cell { x: (i + 1) as usize, y: 0 });
        }
    }
    assert forall|j: usize| 0 < j && w > 0 && (j < y || (j == y && x + 1 == w)) implies #[trigger] m2.linked(
        Cell { x: (w - 1) as usize, y: j },
        Cell { x: (w - 1) as usize, y: (j - 1) as usize },
    ) by {
        if j < y {
            lemma_linked_kept(
                m,
                m2,
                Cell { x: (w - 1) as usize, y: j },
                Cell { x: (w - 1) as usize, y: (j - 1) as usize },
            );
        }
    }
}

impl BinaryTree {
    /// Visits the cells in row-major order and links each to its north or its
    /// east neighbour, chosen at random among those that exist.
    pub fn on(maze: Maze) -> (r: Maze)
        requires
            maze.wf(),
        ensures
            r.wf(),
            r@.width == maze@.width,
            r@.height == maze@.height,
            maze@.size() <= 1 ==> r@ == maze@,
            maze@.size() >= 1 ==> r@.link_total() == maze@.link_total() + 2 * (maze@.size() - 1),
            maze@.size() >= 2 ==> forall|c: Cell| r@.contains_cell(c) ==> #[trigger] r@.links_of(c).len() > 0,
            maze@.size() >= 1 ==> r@.all_reach(r@.width - 1),
            maze@.size() >= 1 ==> r@.connected(),
            maze@.grid_links() ==> r@.grid_links(),
            forall|x: usize|
                x + 1 < maze@.width && 0 < maze@.height ==> #[trigger] r@.linked(
                    Cell { x, y: 0 },
                    Cell { x: (x + 1) as usize, y: 0 },
                ),
            forall|y: usize|
                0 < y < maze@.height && 0 < maze@.width ==> #[trigger] r@.linked(
                    Cell { x: (maze@.width - 1) as usize, y },
                    Cell { x: (maze@.width - 1) as usize, y: (y - 1) as usize },
                ),
            exists|draws: Seq<usize>| r@ == binary_tree_upto(maze@, draws, maze@.size() as int),
    {
        let mut rng = rand::thread_rng();
        let n = maze.width() * maze.height();
        let draws = draws_below(&mut rng, n, 2);
        let ghost m0 = maze@;
        let r = Self::carve(maze, &draws);
        proof {
            if m0.size() >= 1 {
                assert(r@.width >= 1) by (nonlinear_arith)
                    requires
                        m0.size() == r@.width * r@.height,
                        m0.size() >= 1,
                ;
                assert(r@.width <= m0.size()) by (nonlinear_arith)
                    requires
                        m0.size() == r@.width * r@.height,
                        m0.size() >= 1,
                ;
                lemma_connected(r@, r@.width - 1);
            }
        }
        r
    }

    /// The binary-tree visit with the choices given: cell `i` (in row-major
    /// order) is linked to its north neighbour when `draws[i]` is even and to
    /// its east neighbour when it is odd, where both exist.
    #[verifier::rlimit(100)]
    #[verifier::spinoff_prover]
    pub fn carve(maze: Maze, draws: &Vec<usize>) -> (r: Maze)
        requires
            maze.wf(),
            draws@.len() == maze@.size(),
        ensures
            r@ == binary_tree_upto(maze@, draws@, maze@.size() as int),
            maze@.grid_links() ==> r@.grid_links(),
            forall|x: usize|
                x + 1 < maze@.width && 0 < maze@.height ==> #[trigger] r@.linked(
                    Cell { x, y: 0 },
                    Cell { x: (x + 1) as usize, y: 0 },
                ),
            forall|y: usize|
                0 < y < maze@.height && 0 < maze@.width ==> #[trigger] r@.linked(
                    Cell { x: (maze@.width - 1) as usize, y },
                    Cell { x: (maze@.width - 1) as usize, y: (y - 1) as usize },
                ),
            r.wf(),
            r@.width == maze@.width,
            r@.height == maze@.height,
            maze@.size() <= 1 ==> r@ == maze@,
            maze@.size() >= 1 ==> r@.link_total() == maze@.link_total() + 2 * (maze@.size() - 1),
            maze@.size() >= 2 ==> forall|c: Cell| r@.contains_cell(c) ==> #[trigger] r@.links_of(c).len() > 0,
            maze@.size() >= 1 ==> r@.all_reach(r@.width - 1),
    {
        let mut maze = maze;
        let ghost m0 = maze@;
        let w = maze.width();
        let h = maze.height();
        let ghost mut k: int = 0;
        let mut y: usize = 0;
        while y < h
            invariant
                maze.wf(),
                w == maze@.width,
                h == maze@.height,
                m0.adj.len() == m0.size(),
                y <= h,
                k == y * w,
                draws@.len() == m0.size(),
                maze@ == binary_tree_upto(m0, draws@, k),
                m0.grid_links() ==> maze@.grid_links(),
                corridors(maze@, 0, y as int),
                maze@.carved(m0, k),
                maze@.joined(w - 1, k, k + w, k),
            decreases h - y,
        {
            let mut x: usize = 0;
            while x < w
                invariant
                    maze.wf(),
                    w == maze@.width,
                    h == maze@.height,
                    m0.adj.len() == m0.size(),
                    y < h,
                    x <= w,
                    k == y * w + x,
                    draws@.len() == m0.size(),
                    maze@ == binary_tree_upto(m0, draws@, k),
                    m0.grid_links() ==> maze@.grid_links(),
                    corridors(maze@, x as int, y as int),
                    maze@.carved(m0, k),
                    maze@.joined(w - 1, k - x, k - x + w, k),
                decreases w - x,
            {
                let cell = Cell::new(x, y);
                proof {
                    assert(y >= 1 ==> k >= w) by (nonlinear_arith)
                        requires
                            k == y * w + x,
                    ;
                    assert(y == 0 ==> k == x) by (nonlinear_arith)
                        requires
                            k == y * w + x,
                    ;
                    assert(maze@.index_of(cell) == k);
                    lemma_index_bound(cell, maze@.width, maze@.height);
                    lemma_index_round_trip(m0, cell);
                }
                let drawn = draws[y * w + x];
                let nb = maze.neighbours(&cell);
                let mut candidates: Vec<Cell> = Vec::new();
                if let Some(n) = nb.get(&Direction::North) {
                    candidates.push(n);
                }
                if let Some(e) = nb.get(&Direction::East) {
                    candidates.push(e);
                }
                let ghost before = maze@;
                proof {
                    assert(nb.at(Direction::North) is Some <==> y > 0);
                    assert(nb.at(Direction::East) is Some <==> x + 1 < w);
                    assert(candidates@ =~= north_east(m0, cell));
                    assert(candidates@.len() == 0 <==> k == w - 1);
                    if k == w - 2 {
                        assert(candidates@ == seq![Cell { x: (w - 1) as usize, y: 0 }]);
                    }
                    if w == 1 && k == 1 {
                        assert(candidates@ == seq![Cell { x: 0, y: 0 }]);
                    }
                }
                if let Some(chosen) = pick(candidates.as_slice(), drawn) {
                    let chosen = *chosen;
                    maze.link(&cell, &chosen);
                    proof {
                        lemma_index_bound(chosen, maze@.width, maze@.height);
                        if k == w - 2 {
                            assert(maze@.index_of(chosen) == w - 1);
                        }
                        if w == 1 && k == 1 {
                            assert(maze@.index_of(chosen) == 0);
                        }
                        lemma_with_link_extends(before, cell, chosen);
                        let ci = maze@.index_of(chosen);
                        assert(maze@.edge(k, ci));
                        if y == 0 && x + 1 < w {
                            assert(chosen == (Cell { x: (x + 1) as usize, y: 0 }));
                        }
                        if y > 0 && x + 1 == w {
                            assert(chosen == (Cell { x, y: (y - 1) as usize }));
                        }
                        lemma_corridors_step(before, maze@, x, y, chosen);
                        if m0.grid_links() {
                            if chosen.y < y {
                                lemma_with_link_grid(before, cell, Direction::North);
                            } else {
                                lemma_with_link_grid(before, cell, Direction::East);
                            }
                        }
                        if chosen.y < y {
                            assert(ci == k - w) by (nonlinear_arith)
                                requires
                                    ci == chosen.y * w + chosen.x,
                                    chosen.y == y - 1,
                                    chosen.x == x,
                                    k == y * w + x,
                            ;
                            lemma_joined_north(before, maze@, w - 1, k - x, k - x + w, k, ci);
                        } else {
                            lemma_joined_east(before, maze@, w - 1, k - x, k - x + w, k);
                        }
                    }
                } else {
                    proof {
                        lemma_joined_at_root(maze@, k - x, k - x + w, k);
                    }
                }
                proof {
                    let m = maze@;
                    assert forall|j: int| 0 <= j < k + 1 && j != w - 1 implies (#[trigger] m.adj[j]).len() > 0 by {
                        if j < k {
                            assert(before.adj[j].len() > 0);
                        }
                    }
                }
                x = x + 1;
                proof {
                    k = k + 1;
                }
            }
            y = y + 1;
            proof {
                assert(k == y * w) by (nonlinear_arith)
                    requires
                        k == (y - 1) * w + w,
                ;
                lemma_joined_row_done(maze@, w - 1, k - w, k, w as int);
                lemma_corridors_next_row(maze@, y - 1);
            }
        }
        proof {
            assert(k == m0.size()) by (nonlinear_arith)
                requires
                    k == h * w,
                    m0.size() == w * h,
            ;
            lemma_carved_complete(maze@, m0);
            lemma_joined_all(maze@, w - 1, w as int);
        }
        maze
    }
}

} // verus!
