//! The grid graph: cells, directions, neighbours and symmetric links.
use vstd::prelude::*;
use crate::carving::lemma_with_link_symmetric;
use vstd::string::StringExecFns;

verus! {

/// One of the four axis-aligned directions of the grid; North points to smaller `y`.
#[derive(Debug, PartialEq, Eq, Clone, Copy, Hash, Structural)]
pub enum Direction {
    North,
    East,
    South,
    West,
}

/// A grid position, identified by its coordinates.
#[derive(Debug, PartialEq, Eq, Clone, Copy, Structural)]
pub struct Cell {
    pub x: usize,
    pub y: usize,
}

impl Cell {
    pub fn new(x: usize, y: usize) -> (c: Cell)
        ensures
            c == (Cell { x, y }),
    {
        Cell { x, y }
    }
}

/// The neighbours of one cell, at most one per direction.
#[derive(Debug, PartialEq, Eq, Clone, Copy, Structural)]
pub struct Neighbours {
    pub north: Option<Cell>,
    pub south: Option<Cell>,
    pub west: Option<Cell>,
    pub east: Option<Cell>,
}

pub open spec fn entry(d: Direction, o: Option<Cell>) -> Seq<(Direction, Cell)> {
    match o {
        Some(c) => seq![(d, c)],
        None => Seq::empty(),
    }
}

impl Neighbours {
    /// The neighbour in direction `d`, if any.
    pub open spec fn at(self, d: Direction) -> Option<Cell> {
        match d {
            Direction::North => self.north,
            Direction::South => self.south,
            Direction::West => self.west,
            Direction::East => self.east,
        }
    }

    /// How many directions have a neighbour.
    pub open spec fn count(self) -> nat {
        (if self.north is Some { 1nat } else { 0 }) + (if self.south is Some { 1nat } else { 0 })
            + (if self.west is Some { 1nat } else { 0 }) + (if self.east is Some { 1nat } else { 0 })
    }

    /// The present entries, in the order North, South, West, East.
    pub open spec fn entries_spec(self) -> Seq<(Direction, Cell)> {
        entry(Direction::North, self.north) + entry(Direction::South, self.south) + entry(
            Direction::West,
            self.west,
        ) + entry(Direction::East, self.east)
    }

    pub fn get(&self, d: &Direction) -> (r: Option<Cell>)
        ensures
            r == self.at(*d),
    {
        match d {
            Direction::North => self.north,
            Direction::South => self.south,
            Direction::West => self.west,
            Direction::East => self.east,
        }
    }

    pub fn contains_key(&self, d: &Direction) -> (r: bool)
        ensures
            r == self.at(*d) is Some,
    {
        self.get(d).is_some()
    }

    pub fn len(&self) -> (r: usize)
        ensures
            r == self.count(),
    {
        let mut n: usize = 0;
        if self.north.is_some() {
            n = n + 1;
        }
        if self.south.is_some() {
            n = n + 1;
        }
        if self.west.is_some() {
            n = n + 1;
        }
        if self.east.is_some() {
            n = n + 1;
        }
        n
    }

    pub fn entries(&self) -> (r: Vec<(Direction, Cell)>)
        ensures
            r@ == self.entries_spec(),
    {
        let mut r: Vec<(Direction, Cell)> = Vec::new();
        if let Some(c) = self.north {
            r.push((Direction::North, c));
        }
        if let Some(c) = self.south {
            r.push((Direction::South, c));
        }
        if let Some(c) = self.west {
            r.push((Direction::West, c));
        }
        if let Some(c) = self.east {
            r.push((Direction::East, c));
        }
        assert(r@ =~= self.entries_spec());
        r
    }
}

/// Sum of the lengths of the inner sequences.
pub open spec fn total_len(s: Seq<Seq<usize>>) -> int
    decreases s.len(),
{
    if s.len() == 0 {
        0
    } else {
        total_len(s.drop_last()) + s.last().len()
    }
}

proof fn lemma_total_push(s: Seq<Seq<usize>>, i: int, v: usize)
    requires
        0 <= i < s.len(),
    ensures
        total_len(s.update(i, s[i].push(v))) == total_len(s) + 1,
    decreases s.len(),
{
    let t = s.update(i, s[i].push(v));
    if i == s.len() - 1 {
        assert(t.drop_last() =~= s.drop_last());
    } else {
        lemma_total_push(s.drop_last(), i, v);
        assert(t.drop_last() =~= s.drop_last().update(i, s[i].push(v)));
    }
}

/// The mathematical content of a maze: its dimensions and, for each cell index
/// `y * width + x`, the indices of the cells linked to it, in the order of linking.
pub struct MazeModel {
    pub width: nat,
    pub height: nat,
    pub adj: Seq<Seq<usize>>,
}

impl MazeModel {
    pub open spec fn size(self) -> nat {
        self.width * self.height
    }

    pub open spec fn fresh(width: nat, height: nat) -> MazeModel {
        MazeModel { width, height, adj: Seq::new(width * height, |i: int| Seq::<usize>::empty()) }
    }

    pub open spec fn contains_cell(self, c: Cell) -> bool {
        c.x < self.width && c.y < self.height
    }

    pub open spec fn index_of(self, c: Cell) -> int {
        c.y * self.width + c.x
    }

    pub open spec fn cell_at(self, i: int) -> Cell {
        Cell { x: (i % self.width as int) as usize, y: (i / self.width as int) as usize }
    }

    /// Every cell, in row-major order.
    pub open spec fn cell_seq(self) -> Seq<Cell> {
        Seq::new(self.size(), |i: int| self.cell_at(i))
    }

    /// The cells linked to `c`, in the order in which the links were made.
    pub open spec fn links_of(self, c: Cell) -> Seq<Cell> {
        self.adj[self.index_of(c)].map_values(|j: usize| self.cell_at(j as int))
    }

    pub open spec fn linked(self, a: Cell, b: Cell) -> bool {
        self.adj[self.index_of(a)].contains(self.index_of(b) as usize)
    }

    /// Twice the number of links: each link is recorded at both of its ends.
    pub open spec fn link_total(self) -> int {
        total_len(self.adj)
    }

    /// The model after linking `a` and `b`: each is appended to the other's links.
    pub open spec fn with_link(self, a: Cell, b: Cell) -> MazeModel {
        let ia = self.index_of(a);
        let ib = self.index_of(b);
        let adj1 = self.adj.update(ia, self.adj[ia].push(ib as usize));
        MazeModel { adj: adj1.update(ib, adj1[ib].push(ia as usize)), ..self }
    }

    /// The neighbour of `c` in direction `d`, when it lies inside the grid.
    pub open spec fn neighbour(self, c: Cell, d: Direction) -> Option<Cell> {
        match d {
            Direction::North => if c.y > 0 {
                Some(Cell { x: c.x, y: (c.y - 1) as usize })
            } else {
                None
            },
            Direction::South => if c.y + 1 < self.height {
                Some(Cell { x: c.x, y: (c.y + 1) as usize })
            } else {
                None
            },
            Direction::West => if c.x > 0 {
                Some(Cell { x: (c.x - 1) as usize, y: c.y })
            } else {
                None
            },
            Direction::East => if c.x + 1 < self.width {
                Some(Cell { x: (c.x + 1) as usize, y: c.y })
            } else {
                None
            },
        }
    }

    /// Whether `c` has a neighbour in direction `d` that it is linked to.
    pub open spec fn linked_towards(self, c: Cell, d: Direction) -> bool {
        match self.neighbour(c, d) {
            Some(n) => self.linked(c, n),
            None => false,
        }
    }

    /// The tops of the first `n` cells of row `y`: a corner, then a wall or a
    /// passage depending on the link north.
    pub open spec fn top_cells(self, y: int, n: int) -> Seq<char>
        decreases n,
    {
        if n <= 0 {
            Seq::empty()
        } else {
            self.top_cells(y, n - 1) + seq!['+'] + if self.linked_towards(
                Cell { x: (n - 1) as usize, y: y as usize },
                Direction::North,
            ) {
                seq![' ', ' ', ' ']
            } else {
                seq!['-', '-', '-']
            }
        }
    }

    /// The bodies of the first `n` cells of row `y`: a wall or a passage
    /// depending on the link west, then the interior.
    pub open spec fn body_cells(self, y: int, n: int) -> Seq<char>
        decreases n,
    {
        if n <= 0 {
            Seq::empty()
        } else {
            self.body_cells(y, n - 1) + if self.linked_towards(
                Cell { x: (n - 1) as usize, y: y as usize },
                Direction::West,
            ) {
                seq![' ']
            } else {
                seq!['|']
            } + seq![' ', ' ', ' ']
        }
    }

    /// The two lines of each of the first `n` rows.
    pub open spec fn row_lines(self, n: int) -> Seq<char>
        decreases n,
    {
        if n <= 0 {
            Seq::empty()
        } else {
            self.row_lines(n - 1) + self.top_cells(n - 1, self.width as int) + seq!['+', '\n']
                + self.body_cells(n - 1, self.width as int) + seq!['|', '\n']
        }
    }

    /// The closing border under `n` cells, without its last corner.
    pub open spec fn bottom_border(n: int) -> Seq<char>
        decreases n,
    {
        if n <= 0 {
            Seq::empty()
        } else {
            Self::bottom_border(n - 1) + seq!['+', '-', '-', '-']
        }
    }

    /// The text drawing of the maze.
    pub open spec fn text(self) -> Seq<char> {
        self.row_lines(self.height as int) + Self::bottom_border(self.width as int) + seq!['+']
    }

    pub open spec fn well_formed(self) -> bool {
        &&& self.adj.len() == self.size()
        &&& forall|i: int, j: int|
            0 <= i < self.adj.len() && 0 <= j < self.adj[i].len() ==> #[trigger] self.adj[i][j]
                < self.adj.len()
    }
}

/// A rectangular grid whose cells are joined by symmetric links.
#[derive(Debug, PartialEq)]
pub struct Maze {
    width: usize,
    height: usize,
    links: Vec<Vec<usize>>,
}

impl View for Maze {
    type V = MazeModel;

    closed spec fn view(&self) -> MazeModel {
        MazeModel {
            width: self.width as nat,
            height: self.height as nat,
            adj: self.links@.map_values(|l: Vec<usize>| l@),
        }
    }
}

/// A cell inside a `w` by `h` grid has an index below `w * h`.
pub proof fn lemma_index_bound(c: Cell, w: nat, h: nat)
    requires
        c.x < w,
        c.y < h,
    ensures
        0 <= c.y * w + c.x < w * h,
{
    assert(c.y * w + c.x < w * h) by (nonlinear_arith)
        requires
            c.x < w,
            c.y < h,
    ;
}

/// The cell of index `i` lies inside the grid.
pub proof fn lemma_cell_at_inside(m: MazeModel, i: int)
    requires
        0 <= i < m.size(),
        m.size() <= usize::MAX,
    ensures
        m.contains_cell(m.cell_at(i)),
        m.index_of(m.cell_at(i)) == i,
{
    let w = m.width as int;
    let h = m.height as int;
    assert(w > 0) by (nonlinear_arith)
        requires
            i < w * h,
            0 <= i,
            0 <= h,
    ;
    assert(i / w < h) by (nonlinear_arith)
        requires
            i < w * h,
            0 <= i,
            w > 0,
    ;
    assert((i / w) * w + i % w == i && 0 <= i % w < w && 0 <= i / w <= i) by (nonlinear_arith)
        requires
            w > 0,
            0 <= i,
    ;
}

impl Maze {
    pub open spec fn wf(&self) -> bool {
        &&& self@.well_formed()
        &&& self@.symmetric()
        &&& self@.size() <= usize::MAX
    }

    pub fn new(width: usize, height: usize) -> (r: Maze)
        requires
            width * height <= usize::MAX,
        ensures
            r.wf(),
            r@ == MazeModel::fresh(width as nat, height as nat),
            r@.grid_links(),
    {
        let size = width * height;
        let mut links: Vec<Vec<usize>> = Vec::new();
        let mut i: usize = 0;
        while i < size
            invariant
                i <= size,
                size == width * height,
                links@.len() == i,
                forall|j: int| 0 <= j < i ==> (#[trigger] links@[j])@.len() == 0,
            decreases size - i,
        {
            links.push(Vec::new());
            i = i + 1;
        }
        let r = Maze { width, height, links };
        assert(r@.adj =~~= MazeModel::fresh(width as nat, height as nat).adj);
        assert forall|a: int, b: int| 0 <= b < r@.adj.len() && #[trigger] r@.edge(a, b) implies r@.edge(
            b,
            a,
        ) by {
            assert(r@.adj[a].len() == 0);
        }
        assert forall|a: int, b: int| 0 <= b < r@.adj.len() && #[trigger] r@.edge(a, b) implies r@.adjacent(
            a,
            b,
        ) by {
            assert(r@.adj[a].len() == 0);
        }
        r
    }

    pub fn width(&self) -> (r: usize)
        ensures
            r == self@.width,
    {
        self.width
    }

    pub fn height(&self) -> (r: usize)
        ensures
            r == self@.height,
    {
        self.height
    }

    fn index(&self, cell: &Cell) -> (r: usize)
        requires
            self.wf(),
            self@.contains_cell(*cell),
        ensures
            r == self@.index_of(*cell),
            r < self@.size(),
    {
        proof {
            lemma_index_bound(*cell, self@.width, self@.height);
        }
        cell.y * self.width + cell.x
    }

    fn cell(&self, index: &usize) -> (r: Cell)
        requires
            self.wf(),
            *index < self@.size(),
        ensures
            r == self@.cell_at(*index as int),
            self@.contains_cell(r),
    {
        proof {
            lemma_cell_at_inside(self@, *index as int);
        }
        Cell::new(*index % self.width, *index / self.width)
    }

    /// Every cell, in row-major order.
    pub fn cells(&self) -> (r: Vec<Cell>)
        requires
            self.wf(),
        ensures
            r@ == self@.cell_seq(),
    {
        let n = self.width * self.height;
        let mut r: Vec<Cell> = Vec::new();
        let mut i: usize = 0;
        while i < n
            invariant
                self.wf(),
                n == self@.size(),
                i <= n,
                r@ =~= self@.cell_seq().take(i as int),
            decreases n - i,
        {
            let c = self.cell(&i);
            r.push(c);
            i = i + 1;
        }
        assert(r@ =~= self@.cell_seq());
        r
    }

    /// The cells grouped by row, top row first, each row left to right.
    pub fn rows(&self) -> (r: Vec<Vec<Cell>>)
        requires
            self.wf(),
        ensures
            r@.len() == self@.height,
            forall|y: int| 0 <= y < self@.height ==> (#[trigger] r@[y])@.len() == self@.width,
            forall|y: int, x: int|
                0 <= y < self@.height && 0 <= x < self@.width ==> (#[trigger] r@[y]@[x]) == (Cell {
                    x: x as usize,
                    y: y as usize,
                }),
    {
        let mut result: Vec<Vec<Cell>> = Vec::new();
        let mut y: usize = 0;
        while y < self.height
            invariant
                y <= self@.height,
                result@.len() == y,
                forall|j: int| 0 <= j < y ==> (#[trigger] result@[j])@.len() == self@.width,
                forall|j: int, x: int|
                    0 <= j < y && 0 <= x < self@.width ==> (#[trigger] result@[j]@[x]) == (Cell {
                        x: x as usize,
                        y: j as usize,
                    }),
            decreases self@.height - y,
        {
            let mut row: Vec<Cell> = Vec::new();
            let mut x: usize = 0;
            while x < self.width
                invariant
                    x <= self@.width,
                    row@.len() == x,
                    forall|i: int| 0 <= i < x ==> (#[trigger] row@[i]) == (Cell { x: i as usize, y }),
                decreases self@.width - x,
            {
                row.push(Cell::new(x, y));
                x = x + 1;
            }
            result.push(row);
            y = y + 1;
        }
        result
    }

    /// The neighbours of `cell` that lie inside the grid.
    pub fn neighbours(&self, cell: &Cell) -> (r: Neighbours)
        requires
            self@.contains_cell(*cell),
        ensures
            forall|d: Direction| #[trigger] r.at(d) == self@.neighbour(*cell, d),
    {
        let north = if cell.y > 0 {
            Some(Cell::new(cell.x, cell.y - 1))
        } else {
            None
        };
        let south = if cell.y + 1 < self.height {
            Some(Cell::new(cell.x, cell.y + 1))
        } else {
            None
        };
        let west = if cell.x > 0 {
            Some(Cell::new(cell.x - 1, cell.y))
        } else {
            None
        };
        let east = if cell.x + 1 < self.width {
            Some(Cell::new(cell.x + 1, cell.y))
        } else {
            None
        };
        Neighbours { north, south, west, east }
    }

    /// Links `a` and `b`: each is appended to the other's links. Linking twice
    /// records the link twice; a cell linked to itself lists itself twice.
    pub fn link(&mut self, a: &Cell, b: &Cell)
        requires
            old(self).wf(),
            old(self)@.contains_cell(*a),
            old(self)@.contains_cell(*b),
        ensures
            final(self).wf(),
            final(self)@ == old(self)@.with_link(*a, *b),
            final(self)@.link_total() == old(self)@.link_total() + 2,
            final(self)@.linked(*a, *b),
            final(self)@.linked(*b, *a),
            forall|i: int|
                0 <= i < old(self)@.adj.len() ==> (#[trigger] final(self)@.adj[i]).len()
                    >= old(self)@.adj[i].len(),
    {
        let ia = self.index(a);
        let ib = self.index(b);
        let ghost m0 = self@;
        self.links[ia].push(ib);
        proof {
            assert(self@.adj =~= m0.adj.update(ia as int, m0.adj[ia as int].push(ib)));
            lemma_total_push(m0.adj, ia as int, ib);
        }
        let ghost m1 = self@;
        self.links[ib].push(ia);
        proof {
            assert(self@.adj =~= m1.adj.update(ib as int, m1.adj[ib as int].push(ia)));
            lemma_total_push(m1.adj, ib as int, ia);
            assert(self@ == m0.with_link(*a, *b));
            lemma_with_link_symmetric(m0, *a, *b);
            assert(self@.adj[ia as int].contains(ib)) by {
                let la = self@.adj[ia as int];
                let p: int = if ia == ib { la.len() - 2 } else { la.len() - 1 };
                assert(la[p] == ib);
            }
            assert(self@.adj[ib as int].last() == ia);
        }
    }

    /// The cells linked to `cell`, in the order of linking.
    pub fn links(&self, cell: &Cell) -> (r: Vec<Cell>)
        requires
            self.wf(),
            self@.contains_cell(*cell),
        ensures
            r@ == self@.links_of(*cell),
    {
        let ic = self.index(cell);
        let l = &self.links[ic];
        let mut r: Vec<Cell> = Vec::new();
        let mut i: usize = 0;
        while i < l.len()
            invariant
                self.wf(),
                ic == self@.index_of(*cell),
                0 <= ic < self@.adj.len(),
                l@ == self@.adj[ic as int],
                i <= l@.len(),
                r@ =~= self@.links_of(*cell).take(i as int),
            decreases l@.len() - i,
        {
            let c = self.cell(&l[i]);
            r.push(c);
            i = i + 1;
        }
        assert(r@ =~= self@.links_of(*cell));
        r
    }

    fn are_linked(&self, a: &Cell, b: &Cell) -> (r: bool)
        requires
            self.wf(),
            self@.contains_cell(*a),
            self@.contains_cell(*b),
        ensures
            r == self@.linked(*a, *b),
    {
        let ia = self.index(a);
        let ib = self.index(b);
        let l = &self.links[ia];
        let mut i: usize = 0;
        while i < l.len()
            invariant
                0 <= ia < self@.adj.len(),
                l@ == self@.adj[ia as int],
                ia == self@.index_of(*a),
                ib == self@.index_of(*b),
                i <= l@.len(),
                forall|j: int| 0 <= j < i ==> l@[j] != ib,
            decreases l@.len() - i,
        {
            if l[i] == ib {
                assert(l@[i as int] == ib);
                return true;
            }
            i = i + 1;
        }
        false
    }

    /// Whether `cell` has a neighbour in `direction` that it is linked to.
    pub fn is_linked(&self, cell: &Cell, direction: Direction) -> (r: bool)
        requires
            self.wf(),
            self@.contains_cell(*cell),
        ensures
            r == self@.linked_towards(*cell, direction),
    {
        match self.neighbours(cell).get(&direction) {
            Some(n) => self.are_linked(cell, &n),
            None => false,
        }
    }

    /// Draws the maze as text: per row a line of cell tops and a line of cell
    /// bodies, then a closing border; lines are separated by `\n`.
    pub fn to_string(&self) -> (r: String)
        requires
            self.wf(),
        ensures
            r@ == self@.text(),
    {
        let mut s = String::new();
        let mut y: usize = 0;
        while y < self.height
            invariant
                self.wf(),
                y <= self@.height,
                s@ == self@.row_lines(y as int),
            decreases self@.height - y,
        {
            let ghost start = s@;
            let mut x: usize = 0;
            while x < self.width
                invariant
                    self.wf(),
                    y < self@.height,
                    x <= self@.width,
                    s@ == start + self@.top_cells(y as int, x as int),
                decreases self@.width - x,
            {
                let ghost prev = s@;
                s.append("+");
                if self.is_linked(&Cell::new(x, y), Direction::North) {
                    s.append("   ");
                } else {
                    s.append("---");
                }
                proof {
                    reveal_strlit("+");
                    reveal_strlit("   ");
                    reveal_strlit("---");
                    assert(s@ =~= start + self@.top_cells(y as int, x + 1));
                }
                x = x + 1;
            }
            s.append("+\n");
            let ghost mid = s@;
            proof {
                reveal_strlit("+\n");
            }
            x = 0;
            while x < self.width
                invariant
                    self.wf(),
                    y < self@.height,
                    x <= self@.width,
                    s@ == mid + self@.body_cells(y as int, x as int),
                decreases self@.width - x,
            {
                if self.is_linked(&Cell::new(x, y), Direction::West) {
                    s.append(" ");
                } else {
                    s.append("|");
                }
                s.append("   ");
                proof {
                    reveal_strlit(" ");
                    reveal_strlit("|");
                    reveal_strlit("   ");
                    assert(s@ =~= mid + self@.body_cells(y as int, x + 1));
                }
                x = x + 1;
            }
            s.append("|\n");
            proof {
                reveal_strlit("|\n");
                assert(s@ =~= self@.row_lines(y + 1));
            }
            y = y + 1;
        }
        let ghost rows = s@;
        let mut x: usize = 0;
        while x < self.width
            invariant
                x <= self@.width,
                s@ == rows + MazeModel::bottom_border(x as int),
            decreases self@.width - x,
        {
            s.append("+---");
            proof {
                reveal_strlit("+---");
                assert(s@ =~= rows + MazeModel::bottom_border(x + 1));
            }
            x = x + 1;
        }
        s.append("+");
        proof {
            reveal_strlit("+");
            assert(s@ =~= self@.text());
        }
        s
    }
}

} // verus!
