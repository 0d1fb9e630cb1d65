//! Laws of the grid graph, stated over its model and proved.
use crate::maze::{lemma_index_bound, total_len, Cell, Direction, MazeModel};
use vstd::arithmetic::div_mod::lemma_fundamental_div_mod_converse;
use vstd::prelude::*;

verus! {

impl MazeModel {
    /// How many of the four directions lead from `c` to a cell of the grid.
    pub open spec fn neighbour_count(self, c: Cell) -> nat {
        (if self.neighbour(c, Direction::North) is Some { 1nat } else { 0 }) + (if self.neighbour(
            c,
            Direction::South,
        ) is Some {
            1nat
        } else {
            0
        }) + (if self.neighbour(c, Direction::West) is Some { 1nat } else { 0 }) + (
        if self.neighbour(c, Direction::East) is Some {
            1nat
        } else {
            0
        })
    }

    pub open spec fn on_west_or_east_edge(self, c: Cell) -> bool {
        c.x == 0 || c.x + 1 == self.width
    }

    pub open spec fn on_north_or_south_edge(self, c: Cell) -> bool {
        c.y == 0 || c.y + 1 == self.height
    }
}

/// Decoding the index of a cell of the grid gives the cell back.
pub proof fn lemma_index_round_trip(m: MazeModel, c: Cell)
    requires
        m.contains_cell(c),
    ensures
        m.cell_at(m.index_of(c)) == c,
{
    lemma_index_bound(c, m.width, m.height);
    lemma_fundamental_div_mod_converse(m.index_of(c), m.width as int, c.y as int, c.x as int);
}

proof fn lemma_total_of_empty(s: Seq<Seq<usize>>)
    requires
        forall|i: int| 0 <= i < s.len() ==> (#[trigger] s[i]).len() == 0,
    ensures
        total_len(s) == 0,
    decreases s.len(),
{
    if s.len() > 0 {
        lemma_total_of_empty(s.drop_last());
    }
}

/// A freshly built grid has no links, and lists its `width * height` cells in
/// row-major order: the cell `(x, y)` comes at position `y * width + x`.
pub proof fn lemma_fresh_grid(width: nat, height: nat)
    requires
        width * height <= usize::MAX,
    ensures
        MazeModel::fresh(width, height).link_total() == 0,
        forall|c: Cell|
            MazeModel::fresh(width, height).contains_cell(c) ==> #[trigger] MazeModel::fresh(
                width,
                height,
            ).links_of(c).len() == 0,
        MazeModel::fresh(width, height).cell_seq().len() == width * height,
        forall|x: int, y: int|
            0 <= x < width && 0 <= y < height ==> #[trigger] MazeModel::fresh(
                width,
                height,
            ).cell_seq()[y * width + x] == (Cell { x: x as usize, y: y as usize }),
{
    let m = MazeModel::fresh(width, height);
    lemma_total_of_empty(m.adj);
    assert forall|c: Cell| m.contains_cell(c) implies #[trigger] m.links_of(c).len() == 0 by {
        lemma_index_bound(c, width, height);
    }
    assert forall|x: int, y: int| 0 <= x < width && 0 <= y < height implies #[trigger] m.cell_seq()[y
        * width + x] == (Cell { x: x as usize, y: y as usize }) by {
        assert(x <= width * height && y <= width * height) by (nonlinear_arith)
            requires
                0 <= x < width,
                0 <= y < height,
        ;
        let c = Cell { x: x as usize, y: y as usize };
        lemma_index_bound(c, width, height);
        lemma_index_round_trip(m, c);
    }
}

/// A cell's neighbours: none in a one-cell grid; in a grid at least two cells
/// wide and high, two at a corner, three elsewhere on the border, four inside.
pub proof fn lemma_neighbour_count(m: MazeModel, c: Cell)
    requires
        m.contains_cell(c),
    ensures
        m.width == 1 && m.height == 1 ==> m.neighbour_count(c) == 0,
        m.width >= 2 && m.height >= 2 ==> {
            &&& (m.on_west_or_east_edge(c) && m.on_north_or_south_edge(c)) ==> m.neighbour_count(c)
                == 2
            &&& (m.on_west_or_east_edge(c) != m.on_north_or_south_edge(c)) ==> m.neighbour_count(c)
                == 3
            &&& (!m.on_west_or_east_edge(c) && !m.on_north_or_south_edge(c)) ==> m.neighbour_count(
                c,
            ) == 4
        },
{
}

/// Linking is symmetric: after linking `a` and `b`, each is among the other's links.
pub proof fn lemma_link_symmetric(m: MazeModel, a: Cell, b: Cell)
    requires
        m.well_formed(),
        m.size() <= usize::MAX,
        m.contains_cell(a),
        m.contains_cell(b),
    ensures
        m.with_link(a, b).links_of(a).contains(b),
        m.with_link(a, b).links_of(b).contains(a),
{
    let m2 = m.with_link(a, b);
    lemma_index_bound(a, m.width, m.height);
    lemma_index_bound(b, m.width, m.height);
    lemma_index_round_trip(m, a);
    lemma_index_round_trip(m, b);
    let la = m2.adj[m.index_of(a)];
    let lb = m2.adj[m.index_of(b)];
    let ia = m.index_of(a) as usize;
    let ib = m.index_of(b) as usize;
    let pa: int = if ia == ib { la.len() - 2 } else { la.len() - 1 };
    assert(la[pa] == ib);
    assert(m2.links_of(a)[pa] == b);
    assert(lb[lb.len() - 1] == ia);
    assert(m2.links_of(b)[lb.len() - 1] == a);
}

} // verus!
