//! What the generators establish: how many links they add, and paths along
//! links from every cell to one root cell.
use crate::laws::lemma_index_round_trip;
use crate::maze::{lemma_index_bound, Cell, Direction, MazeModel};
use vstd::prelude::*;

verus! {

impl MazeModel {
    /// What a generator has achieved after visiting the first `k` cells in
    /// row-major order, starting from `m0`: one link for each visited cell but
    /// the top-right one, and no visited cell left without links, except the
    /// top-right one until its west or south neighbour has been visited.
    pub open spec fn carved(self, m0: MazeModel, k: int) -> bool {
        let w = self.width as int;
        &&& self.width == m0.width
        &&& self.height == m0.height
        &&& self.adj.len() == m0.adj.len()
        &&& self.link_total() == m0.link_total() + 2 * (k - (if w > 0 && k >= w { 1int } else { 0 }))
        &&& (self.link_total() == m0.link_total() ==> self == m0)
        &&& forall|j: int| 0 <= j < k && j != w - 1 ==> (#[trigger] self.adj[j]).len() > 0
        &&& (w >= 2 && k >= w - 1 ==> self.adj[w - 1].len() > 0)
        &&& (w == 1 && k >= 2 ==> self.adj[0].len() > 0)
    }

    /// A link leads from the cell of index `a` to the cell of index `b`.
    pub open spec fn edge(self, a: int, b: int) -> bool {
        0 <= a < self.adj.len() && self.adj[a].contains(b as usize)
    }

    pub open spec fn step_at(self, p: Seq<int>, i: int) -> bool {
        self.edge(p[i], p[i + 1])
    }

    /// Every link is recorded at both of its ends.
    pub open spec fn symmetric(self) -> bool {
        forall|a: int, b: int| 0 <= b < self.adj.len() && #[trigger] self.edge(a, b) ==> self.edge(b, a)
    }

    /// The cells of index `i` and `j` are grid neighbours.
    pub open spec fn adjacent(self, i: int, j: int) -> bool {
        exists|d: Direction| self.neighbour(self.cell_at(i), d) == Some(self.cell_at(j))
    }

    /// Every link joins two grid neighbours.
    pub open spec fn grid_links(self) -> bool {
        forall|i: int, j: int| 0 <= j < self.adj.len() && #[trigger] self.edge(i, j) ==> self.adjacent(i, j)
    }

    /// `p` lists cell indices of the grid, each linked to the next.
    pub open spec fn is_path(self, p: Seq<int>) -> bool {
        &&& p.len() >= 1
        &&& forall|i: int| 0 <= i < p.len() ==> 0 <= #[trigger] p[i] < self.adj.len()
        &&& forall|i: int| 0 <= i < p.len() - 1 ==> #[trigger] self.step_at(p, i)
    }

    /// A path leads from the cell of index `a` to the cell of index `b`.
    pub open spec fn reaches(self, a: int, b: int) -> bool {
        exists|p: Seq<int>| self.is_path(p) && p[0] == a && p.last() == b
    }

    /// Every link of `self` is kept in `m2`, at the same place.
    pub open spec fn extended_by(self, m2: MazeModel) -> bool {
        &&& m2.adj.len() == self.adj.len()
        &&& forall|i: int, j: int|
            0 <= i < self.adj.len() && 0 <= j < self.adj[i].len() ==> j < m2.adj[i].len()
                && m2.adj[i][j] == #[trigger] self.adj[i][j]
    }

    /// Of the first `k` cells in row-major order, each is joined to `root`, or
    /// lies in the row `[row_start, row_end)` that `k` is in and is joined to `k`.
    pub open spec fn joined(self, root: int, row_start: int, row_end: int, k: int) -> bool {
        forall|j: int|
            0 <= j < k ==> #[trigger] self.reaches(j, root) || (row_start <= j && k < row_end
                && self.reaches(j, k))
    }

    /// Of the first `k` cells in row-major order, the last `len` (the open
    /// run) are joined to and from `k`, and the others are joined to `root`.
    pub open spec fn run_joined(self, root: int, k: int, len: int) -> bool {
        forall|j: int|
            #![trigger self.reaches(j, root)]
            #![trigger self.reaches(j, k)]
            #![trigger self.reaches(k, j)]
            0 <= j < k ==> (j < k - len ==> self.reaches(j, root)) && (k - len <= j ==> self.reaches(
                j,
                k,
            ) && self.reaches(k, j))
    }

    /// Any two cells of the grid are joined by a path.
    pub open spec fn connected(self) -> bool {
        forall|i: int, j: int|
            0 <= i < self.adj.len() && 0 <= j < self.adj.len() ==> #[trigger] self.reaches(i, j)
    }

    /// Every cell of the grid is joined by a path to the cell of index `root`.
    pub open spec fn all_reach(self, root: int) -> bool {
        forall|j: int| 0 <= j < self.adj.len() ==> #[trigger] self.reaches(j, root)
    }
}

pub proof fn lemma_reach_refl(m: MazeModel, a: int)
    requires
        0 <= a < m.adj.len(),
    ensures
        m.reaches(a, a),
{
    let p = seq![a];
    assert(m.is_path(p) && p[0] == a && p.last() == a);
}

pub proof fn lemma_reach_edge(m: MazeModel, a: int, b: int)
    requires
        0 <= b < m.adj.len(),
        m.edge(a, b),
    ensures
        m.reaches(a, b),
{
    let p = seq![a, b];
    assert(m.step_at(p, 0));
    assert(m.is_path(p) && p[0] == a && p.last() == b);
}

pub proof fn lemma_reach_trans(m: MazeModel, a: int, b: int, c: int)
    requires
        m.reaches(a, b),
        m.reaches(b, c),
    ensures
        m.reaches(a, c),
{
    let p = choose|p: Seq<int>| m.is_path(p) && p[0] == a && p.last() == b;
    let q = choose|q: Seq<int>| m.is_path(q) && q[0] == b && q.last() == c;
    let r = p + q.subrange(1, q.len() as int);
    assert forall|i: int| 0 <= i < r.len() implies 0 <= #[trigger] r[i] < m.adj.len() by {
        if i >= p.len() {
            assert(r[i] == q[i - p.len() + 1]);
        }
    }
    assert forall|i: int| 0 <= i < r.len() - 1 implies #[trigger] m.step_at(r, i) by {
        if i < p.len() - 1 {
            assert(m.step_at(p, i));
        } else if i == p.len() - 1 {
            assert(m.step_at(q, 0));
        } else {
            assert(m.step_at(q, i - p.len() + 1));
        }
    }
    if q.len() == 1 {
        assert(r =~= p);
    } else {
        assert(r.last() == q.last());
    }
    assert(m.is_path(r) && r[0] == a && r.last() == c);
}

/// With links recorded at both ends, a path can be walked backwards.
pub proof fn lemma_reach_reverse(m: MazeModel, a: int, b: int)
    requires
        m.symmetric(),
        m.reaches(a, b),
    ensures
        m.reaches(b, a),
{
    let p = choose|p: Seq<int>| m.is_path(p) && p[0] == a && p.last() == b;
    let l = p.len() as int;
    let q = Seq::new(p.len(), |i: int| p[l - 1 - i]);
    assert forall|i: int| 0 <= i < q.len() implies 0 <= #[trigger] q[i] < m.adj.len() by {
        assert(0 <= p[l - 1 - i] < m.adj.len());
    }
    assert forall|i: int| 0 <= i < q.len() - 1 implies #[trigger] m.step_at(q, i) by {
        assert(m.step_at(p, l - 2 - i));
        assert(0 <= p[l - 1 - i] < m.adj.len());
        assert(m.edge(p[l - 2 - i], p[l - 1 - i]));
    }
    assert(m.is_path(q) && q[0] == b && q.last() == a);
}

/// Links recorded at both ends and a path from every cell to one root make
/// the maze connected: any two cells are joined through the root.
pub proof fn lemma_connected(m: MazeModel, root: int)
    requires
        m.symmetric(),
        m.all_reach(root),
        0 <= root < m.adj.len(),
    ensures
        m.connected(),
{
    assert forall|i: int, j: int| 0 <= i < m.adj.len() && 0 <= j < m.adj.len() implies #[trigger] m.reaches(
        i,
        j,
    ) by {
        assert(m.reaches(i, root));
        assert(m.reaches(j, root));
        lemma_reach_reverse(m, j, root);
        lemma_reach_trans(m, i, root, j);
    }
}

pub proof fn lemma_reach_extended(m: MazeModel, m2: MazeModel, a: int, b: int)
    requires
        m.extended_by(m2),
        m.reaches(a, b),
    ensures
        m2.reaches(a, b),
{
    let p = choose|p: Seq<int>| m.is_path(p) && p[0] == a && p.last() == b;
    assert forall|i: int| 0 <= i < p.len() - 1 implies #[trigger] m2.step_at(p, i) by {
        assert(m.step_at(p, i));
        let k = choose|k: int| 0 <= k < m.adj[p[i]].len() && m.adj[p[i]][k] == p[i + 1] as usize;
        assert(m2.adj[p[i]][k] == m.adj[p[i]][k]);
    }
    assert(m2.is_path(p) && p[0] == a && p.last() == b);
}

/// Visiting cell `k` linked it to the cell `t` of an earlier row.
pub proof fn lemma_joined_north(
    m1: MazeModel,
    m2: MazeModel,
    root: int,
    row_start: int,
    row_end: int,
    k: int,
    t: int,
)
    requires
        m1.joined(root, row_start, row_end, k),
        m1.extended_by(m2),
        0 <= t < row_start,
        t < k < m1.adj.len(),
        m2.edge(k, t),
    ensures
        m2.joined(root, row_start, row_end, k + 1),
{
    assert(m1.reaches(t, root));
    lemma_reach_extended(m1, m2, t, root);
    lemma_reach_edge(m2, k, t);
    lemma_reach_trans(m2, k, t, root);
    assert forall|j: int| 0 <= j < k + 1 implies #[trigger] m2.reaches(j, root) || (row_start <= j
        && k + 1 < row_end && m2.reaches(j, k + 1)) by {
        if j < k {
            if m1.reaches(j, root) {
                lemma_reach_extended(m1, m2, j, root);
            } else {
                lemma_reach_extended(m1, m2, j, k);
                lemma_reach_trans(m2, j, k, root);
            }
        }
    }
}

/// Visiting cell `k` linked it to the next cell of its row.
pub proof fn lemma_joined_east(
    m1: MazeModel,
    m2: MazeModel,
    root: int,
    row_start: int,
    row_end: int,
    k: int,
)
    requires
        m1.joined(root, row_start, row_end, k),
        m1.extended_by(m2),
        row_start <= k,
        0 <= k,
        k + 1 < row_end,
        k + 1 < m1.adj.len(),
        m2.edge(k, k + 1),
    ensures
        m2.joined(root, row_start, row_end, k + 1),
{
    lemma_reach_edge(m2, k, k + 1);
    assert forall|j: int| 0 <= j < k + 1 implies #[trigger] m2.reaches(j, root) || (row_start <= j
        && k + 1 < row_end && m2.reaches(j, k + 1)) by {
        if j < k {
            if m1.reaches(j, root) {
                lemma_reach_extended(m1, m2, j, root);
            } else {
                lemma_reach_extended(m1, m2, j, k);
                lemma_reach_trans(m2, j, k, k + 1);
            }
        }
    }
}

/// Visiting `root` itself left the maze as it was.
pub proof fn lemma_joined_at_root(m: MazeModel, row_start: int, row_end: int, k: int)
    requires
        m.joined(k, row_start, row_end, k),
        0 <= k < m.adj.len(),
    ensures
        m.joined(k, row_start, row_end, k + 1),
{
    lemma_reach_refl(m, k);
}

/// At the end of a row every visited cell is joined to `root`.
pub proof fn lemma_joined_row_done(m: MazeModel, root: int, row_start: int, k: int, w: int)
    requires
        m.joined(root, row_start, k, k),
    ensures
        m.joined(root, k, k + w, k),
{
}

/// Once all cells are visited, all are joined to `root`.
pub proof fn lemma_joined_all(m: MazeModel, root: int, w: int)
    requires
        m.joined(root, m.adj.len() as int, m.adj.len() + w, m.adj.len() as int),
    ensures
        m.all_reach(root),
{
}

/// The open run grew by cell `k`, linked both ways to the next cell.
pub proof fn lemma_run_east(m1: MazeModel, m2: MazeModel, root: int, k: int, len: int)
    requires
        m1.run_joined(root, k, len),
        m1.extended_by(m2),
        0 <= len,
        0 <= k,
        k + 1 < m1.adj.len(),
        m2.edge(k, k + 1),
        m2.edge(k + 1, k),
    ensures
        m2.run_joined(root, k + 1, len + 1),
{
    lemma_reach_edge(m2, k, k + 1);
    lemma_reach_edge(m2, k + 1, k);
    assert forall|j: int|
        #![trigger m2.reaches(j, root)]
        #![trigger m2.reaches(j, k + 1)]
        #![trigger m2.reaches(k + 1, j)]
        0 <= j < k + 1 implies (j < k - len ==> m2.reaches(j, root)) && (k - len <= j ==> m2.reaches(
            j,
            k + 1,
        ) && m2.reaches(k + 1, j)) by {
        if j < k {
            if j < k - len {
                assert(m1.reaches(j, root));
                lemma_reach_extended(m1, m2, j, root);
            } else {
                lemma_reach_extended(m1, m2, j, k);
                lemma_reach_extended(m1, m2, k, j);
                lemma_reach_trans(m2, j, k, k + 1);
                lemma_reach_trans(m2, k + 1, k, j);
            }
        }
    }
}

/// The open run, cell `k` included, was closed by linking its member `mi`
/// to the cell `t` of the row above.
pub proof fn lemma_run_closed_north(
    m1: MazeModel,
    m2: MazeModel,
    root: int,
    k: int,
    len: int,
    mi: int,
    t: int,
)
    requires
        m1.run_joined(root, k, len),
        m1.extended_by(m2),
        0 <= len,
        0 <= k < m1.adj.len(),
        k - len <= mi <= k,
        0 <= t < k - len,
        m2.edge(mi, t),
    ensures
        m2.run_joined(root, k + 1, 0),
{
    assert(m1.reaches(t, root));
    lemma_reach_extended(m1, m2, t, root);
    lemma_reach_edge(m2, mi, t);
    lemma_reach_trans(m2, mi, t, root);
    lemma_reach_refl(m2, k);
    if mi < k {
        lemma_reach_extended(m1, m2, k, mi);
    }
    lemma_reach_trans(m2, k, mi, root);
    assert forall|j: int| 0 <= j < k + 1 implies (j < k + 1 - 0 ==> #[trigger] m2.reaches(j, root))
        && (k + 1 - 0 <= j ==> m2.reaches(j, k + 1) && m2.reaches(k + 1, j)) by {
        if j < k {
            if j < k - len {
                assert(m1.reaches(j, root));
                lemma_reach_extended(m1, m2, j, root);
            } else {
                lemma_reach_extended(m1, m2, j, k);
                lemma_reach_trans(m2, j, k, root);
            }
        }
    }
}

/// The open run, cell `k` included, was closed at `root` itself.
pub proof fn lemma_run_closed_at_root(m: MazeModel, k: int, len: int)
    requires
        m.run_joined(k, k, len),
        0 <= k < m.adj.len(),
    ensures
        m.run_joined(k, k + 1, 0),
{
    lemma_reach_refl(m, k);
    assert forall|j: int| 0 <= j < k + 1 implies (j < k + 1 - 0 ==> #[trigger] m.reaches(j, k)) && (k
        + 1 - 0 <= j ==> m.reaches(j, k + 1) && m.reaches(k + 1, j)) by {
        if j < k && j >= k - len {
            assert(m.reaches(j, k));
        }
    }
}

/// Once all cells are visited and no run is open, all are joined to `root`.
pub proof fn lemma_run_joined_all(m: MazeModel, root: int)
    requires
        m.run_joined(root, m.adj.len() as int, 0),
    ensures
        m.all_reach(root),
{
    assert forall|j: int| 0 <= j < m.adj.len() implies #[trigger] m.reaches(j, root) by {
        assert(j < m.adj.len() - 0);
    }
}

/// Once every cell of a grid with at least one cell has been visited, the
/// carving invariant gives a spanning tree's link count and no isolated cell.
pub proof fn lemma_carved_complete(m: MazeModel, m0: MazeModel)
    requires
        m.carved(m0, m0.size() as int),
        m0.adj.len() == m0.size(),
    ensures
        m0.size() <= 1 ==> m == m0,
        m0.size() >= 1 ==> m.link_total() == m0.link_total() + 2 * (m0.size() - 1),
        m0.size() >= 2 ==> forall|c: Cell| m.contains_cell(c) ==> #[trigger] m.links_of(c).len() > 0,
{
    let w = m.width as int;
    let h = m.height as int;
    let n = m0.size() as int;
    assert(n == w * h);
    if n >= 1 {
        assert(w >= 1 && h >= 1 && n >= w) by (nonlinear_arith)
            requires
                n == w * h,
                n >= 1,
                w >= 0,
                h >= 0,
        ;
    }
    if n >= 2 {
        assert forall|c: Cell| m.contains_cell(c) implies #[trigger] m.links_of(c).len() > 0 by {
            lemma_index_bound(c, m.width, m.height);
            let j = m.index_of(c);
            if w == 1 {
                assert(h >= 2) by (nonlinear_arith)
                    requires
                        n == w * h,
                        n >= 2,
                        w == 1,
                ;
            }
            assert(m.adj[j].len() > 0);
        }
    }
}

/// Linking two cells of the grid keeps every link recorded at both ends.
pub proof fn lemma_with_link_symmetric(m: MazeModel, a: Cell, b: Cell)
    requires
        m.adj.len() == m.size(),
        m.size() <= usize::MAX,
        m.symmetric(),
        m.contains_cell(a),
        m.contains_cell(b),
    ensures
        m.with_link(a, b).symmetric(),
{
    let m2 = m.with_link(a, b);
    lemma_with_link_extends(m, a, b);
    lemma_index_bound(a, m.width, m.height);
    lemma_index_bound(b, m.width, m.height);
    let ia = m.index_of(a);
    let ib = m.index_of(b);
    assert(m2.edge(ia, ib)) by {
        let l = m2.adj[ia];
        let p: int = if ia == ib { l.len() - 2 } else { l.len() - 1 };
        assert(l[p] == ib as usize);
    }
    assert(m2.edge(ib, ia)) by {
        assert(m2.adj[ib][m2.adj[ib].len() - 1] == ia as usize);
    }
    assert forall|x: int, y: int| 0 <= y < m2.adj.len() && #[trigger] m2.edge(x, y) implies m2.edge(
        y,
        x,
    ) by {
        let j = choose|j: int| 0 <= j < m2.adj[x].len() && m2.adj[x][j] == y as usize;
        if j < m.adj[x].len() {
            assert(m.adj[x][j] == m2.adj[x][j]);
            assert(m.edge(x, y));
            assert(m.edge(y, x));
            let i = choose|i: int| 0 <= i < m.adj[y].len() && m.adj[y][i] == x as usize;
            assert(m2.adj[y][i] == m.adj[y][i]);
        } else {
            assert((x == ia && y == ib) || (x == ib && y == ia));
        }
    }
}

pub open spec fn opposite(d: Direction) -> Direction {
    match d {
        Direction::North => Direction::South,
        Direction::South => Direction::North,
        Direction::East => Direction::West,
        Direction::West => Direction::East,
    }
}

/// Linking a cell to its neighbour keeps every link between grid neighbours.
pub proof fn lemma_with_link_grid(m: MazeModel, a: Cell, d: Direction)
    requires
        m.adj.len() == m.size(),
        m.size() <= usize::MAX,
        m.grid_links(),
        m.contains_cell(a),
        m.neighbour(a, d) is Some,
    ensures
        m.with_link(a, m.neighbour(a, d).unwrap()).grid_links(),
{
    let b = m.neighbour(a, d).unwrap();
    let m2 = m.with_link(a, b);
    lemma_with_link_extends(m, a, b);
    lemma_index_bound(a, m.width, m.height);
    lemma_index_bound(b, m.width, m.height);
    lemma_index_round_trip(m, a);
    lemma_index_round_trip(m, b);
    let ia = m.index_of(a);
    let ib = m.index_of(b);
    assert(m.neighbour(b, opposite(d)) == Some(a));
    assert forall|x: int, y: int| 0 <= y < m2.adj.len() && #[trigger] m2.edge(x, y) implies m2.adjacent(
        x,
        y,
    ) by {
        let j = choose|j: int| 0 <= j < m2.adj[x].len() && m2.adj[x][j] == y as usize;
        if j < m.adj[x].len() {
            assert(m.adj[x][j] == m2.adj[x][j]);
            assert(m.edge(x, y));
            assert(m.adjacent(x, y));
            let e = choose|e: Direction| m.neighbour(m.cell_at(x), e) == Some(m.cell_at(y));
            assert(m2.neighbour(m2.cell_at(x), e) == Some(m2.cell_at(y)));
        } else {
            assert((x == ia && y == ib) || (x == ib && y == ia));
            if x == ia && y == ib {
                assert(m2.neighbour(m2.cell_at(x), d) == Some(m2.cell_at(y)));
            } else {
                assert(m2.neighbour(m2.cell_at(x), opposite(d)) == Some(m2.cell_at(y)));
            }
        }
    }
}

/// After the visit of every cell before `(x, y)`, the top row is linked east
/// up to `x`, and throughout once a lower row is reached.
pub open spec fn top_row_east(m: MazeModel, x: int, y: int) -> bool {
    forall|i: usize|
        i + 1 < m.width && 0 < m.height && (0 < y || i < x) ==> #[trigger] m.linked(
            Cell { x: i, y: 0 },
            Cell { x: (i + 1) as usize, y: 0 },
        )
}

pub proof fn lemma_top_row_step(m: MazeModel, m2: MazeModel, x: int, y: int)
    requires
        m.adj.len() == m.size(),
        m.extended_by(m2),
        m2.width == m.width,
        m2.height == m.height,
        0 <= x,
        0 <= y,
        y == 0 && x + 1 < m.width ==> m2.linked(
            Cell { x: x as usize, y: 0 },
            Cell { x: (x + 1) as usize, y: 0 },
        ),
        top_row_east(m, x, y),
    ensures
        top_row_east(m2, x + 1, y),
{
    assert forall|i: usize| i + 1 < m2.width && 0 < m2.height && (0 < y || i < x + 1) implies #[trigger] m2.linked(
        Cell { x: i, y: 0 },
        Cell { x: (i + 1) as usize, y: 0 },
    ) by {
        if i < x || 0 < y {
            lemma_linked_kept(m, m2, Cell { x: i, y: 0 }, Cell { x: (i + 1) as usize, y: 0 });
        }
    }
}

/// A link between two cells is kept when the links are extended.
pub proof fn lemma_linked_kept(m: MazeModel, m2: MazeModel, a: Cell, b: Cell)
    requires
        m.extended_by(m2),
        m.adj.len() == m.size(),
        m2.width == m.width,
        m2.height == m.height,
        m.contains_cell(a),
        m.linked(a, b),
    ensures
        m2.linked(a, b),
{
    lemma_index_bound(a, m.width, m.height);
    let ia = m.index_of(a);
    let j = choose|j: int| 0 <= j < m.adj[ia].len() && m.adj[ia][j] == m.index_of(b) as usize;
    assert(m2.adj[ia][j] == m.adj[ia][j]);
}

pub proof fn lemma_with_link_extends(m: MazeModel, a: Cell, b: Cell)
    requires
        m.adj.len() == m.size(),
        m.contains_cell(a),
        m.contains_cell(b),
    ensures
        m.extended_by(m.with_link(a, b)),
{
    lemma_index_bound(a, m.width, m.height);
    lemma_index_bound(b, m.width, m.height);
}

} // verus!
