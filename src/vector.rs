//! Vector drawing of a maze: the wall segments of each cell, and an SVG
//! document that strokes them.
use crate::maze::{Cell, Direction, Maze, MazeModel};
use svg::node::element::path::{Command, Data};
use svg::node::element::{Path, SVG};
use vstd::prelude::*;

verus! {

#[verifier::external_type_specification]
#[verifier::external_body]
pub struct ExData(Data);

/// Declared because `Data` dereferences to a slice of it.
#[verifier::external_type_specification]
#[verifier::external_body]
pub struct ExCommand(Command);

#[verifier::external_type_specification]
#[verifier::external_body]
pub struct ExPath(Path);

#[verifier::external_type_specification]
#[verifier::external_body]
pub struct ExSvg(SVG);

/// A straight wall of `length` units starting at `(x, y)` and running right
/// (horizontal) or down (vertical).
#[derive(Debug, PartialEq, Eq, Clone, Copy, Structural)]
pub struct Segment {
    pub x: usize,
    pub y: usize,
    pub horizontal: bool,
    pub length: usize,
}

/// Largest integer that svg's `f32` path numbers hold exactly, and so the
/// largest coordinate or length that a path description keeps as given.
pub const PATH_NUMBER_LIMIT: usize = 16777216;

/// Start and length of `s` are at most `xmax` across and `ymax` down.
pub open spec fn within(s: Segment, xmax: int, ymax: int) -> bool {
    &&& s.x <= xmax
    &&& s.y <= ymax
    &&& s.length <= xmax
    &&& s.length <= ymax
}

pub open spec fn segment(x: int, y: int, horizontal: bool, size: int) -> Seq<Segment> {
    seq![Segment { x: x as usize, y: y as usize, horizontal, length: size as usize }]
}

impl MazeModel {
    /// The walls drawn for cell `c`: north and west at the grid's edge, east
    /// and south wherever `c` is not linked that way.
    pub open spec fn cell_walls(self, c: Cell, size: int) -> Seq<Segment> {
        let x1 = c.x * size;
        let y1 = c.y * size;
        let x2 = (c.x + 1) * size;
        let y2 = (c.y + 1) * size;
        (if self.neighbour(c, Direction::North) is None {
            segment(x1, y1, true, size)
        } else {
            Seq::empty()
        }) + (if self.neighbour(c, Direction::West) is None {
            segment(x1, y1, false, size)
        } else {
            Seq::empty()
        }) + (if !self.linked_towards(c, Direction::East) {
            segment(x2, y1, false, size)
        } else {
            Seq::empty()
        }) + (if !self.linked_towards(c, Direction::South) {
            segment(x1, y2, true, size)
        } else {
            Seq::empty()
        })
    }

    /// The walls of the first `k` cells in row-major order.
    pub open spec fn walls_upto(self, size: int, k: int) -> Seq<Segment>
        decreases k,
    {
        if k <= 0 {
            Seq::empty()
        } else {
            self.walls_upto(size, k - 1) + self.cell_walls(self.cell_at(k - 1), size)
        }
    }
}

/// One drawing command of a path description, with its arguments as given.
#[derive(Debug, PartialEq, Eq, Clone, Copy, Structural)]
pub enum PathCommand {
    MoveTo(usize, usize),
    HorizontalLineBy(usize),
    VerticalLineBy(usize),
}

/// Attribute values by attribute name.
pub type Texts = Map<Seq<char>, Seq<char>>;

/// The commands that a path description holds, in order.
pub uninterp spec fn data_commands(d: Data) -> Seq<PathCommand>;

/// The text attributes of a `path` element, by name.
pub uninterp spec fn path_texts(p: Path) -> Texts;

/// The commands of the description held in a `path` element's `d` attribute.
pub uninterp spec fn path_data(p: Path) -> Seq<PathCommand>;

/// The text attributes of each `path` child of a document, in order.
pub uninterp spec fn document_path_texts(d: SVG) -> Seq<Texts>;

/// The path descriptions of each `path` child of a document, in order.
pub uninterp spec fn document_path_data(d: SVG) -> Seq<Seq<PathCommand>>;

/// The four numbers of a document's `viewBox` attribute.
pub uninterp spec fn view_box_of(d: SVG) -> Seq<usize>;

/// The commands that draw `segs`: for each, a move to its start, then a
/// relative line along it.
pub open spec fn commands_of(segs: Seq<Segment>) -> Seq<PathCommand>
    decreases segs.len(),
{
    if segs.len() == 0 {
        Seq::empty()
    } else {
        let s = segs.last();
        commands_of(segs.drop_last()) + seq![
            PathCommand::MoveTo(s.x, s.y),
            if s.horizontal {
                PathCommand::HorizontalLineBy(s.length)
            } else {
                PathCommand::VerticalLineBy(s.length)
            },
        ]
    }
}

/// Relies on `Data::new` of svg: an empty path description.
#[verifier::external_body]
fn data_new() -> (r: Data)
    ensures
        data_commands(r) == Seq::<PathCommand>::empty(),
{
    Data::new()
}

/// Relies on `Data::move_to` of svg: appends an absolute move; svg stores
/// the numbers as `f32`, exact up to `PATH_NUMBER_LIMIT`.
#[verifier::external_body]
fn data_move_to(data: Data, x: usize, y: usize) -> (r: Data)
    requires
        x <= PATH_NUMBER_LIMIT,
        y <= PATH_NUMBER_LIMIT,
    ensures
        data_commands(r) == data_commands(data).push(PathCommand::MoveTo(x, y)),
{
    data.move_to((x, y))
}

/// Relies on `Data::horizontal_line_by` of svg: appends a relative horizontal
/// line; svg stores the length as `f32`, exact up to `PATH_NUMBER_LIMIT`.
#[verifier::external_body]
fn data_horizontal_line_by(data: Data, length: usize) -> (r: Data)
    requires
        length <= PATH_NUMBER_LIMIT,
    ensures
        data_commands(r) == data_commands(data).push(PathCommand::HorizontalLineBy(length)),
{
    data.horizontal_line_by(length)
}

/// Relies on `Data::vertical_line_by` of svg: appends a relative vertical
/// line; svg stores the length as `f32`, exact up to `PATH_NUMBER_LIMIT`.
#[verifier::external_body]
fn data_vertical_line_by(data: Data, length: usize) -> (r: Data)
    requires
        length <= PATH_NUMBER_LIMIT,
    ensures
        data_commands(r) == data_commands(data).push(PathCommand::VerticalLineBy(length)),
{
    data.vertical_line_by(length)
}

/// Relies on `Path::new` of svg: a `path` element without attributes.
#[verifier::external_body]
fn path_new() -> (r: Path)
    ensures
        path_texts(r) == Texts::empty(),
        path_data(r) == Seq::<PathCommand>::empty(),
{
    Path::new()
}

/// Relies on `Path::set` of svg: assigns a text attribute other than `d`.
#[verifier::external_body]
fn path_set_text(path: Path, name: &str, value: &str) -> (r: Path)
    requires
        name@ != "d"@,
    ensures
        path_texts(r) == path_texts(path).insert(name@, value@),
        path_data(r) == path_data(path),
{
    path.set(name, value)
}

/// Relies on `Path::set` of svg: assigns the `d` attribute from a path description.
#[verifier::external_body]
fn path_set_data(path: Path, data: Data) -> (r: Path)
    ensures
        path_texts(r) == path_texts(path),
        path_data(r) == data_commands(data),
{
    path.set("d", data)
}

/// Relies on `SVG::new` of svg: a document without children.
#[verifier::external_body]
fn document_new() -> (r: SVG)
    ensures
        document_path_texts(r) == Seq::<Texts>::empty(),
        document_path_data(r) == Seq::<Seq<PathCommand>>::empty(),
{
    SVG::new()
}

/// Relies on `SVG::set` of svg: assigns the `viewBox` attribute from four numbers.
#[verifier::external_body]
fn document_set_view_box(doc: SVG, a: usize, b: usize, c: usize, d: usize) -> (r: SVG)
    ensures
        view_box_of(r) == seq![a, b, c, d],
        document_path_texts(r) == document_path_texts(doc),
        document_path_data(r) == document_path_data(doc),
{
    doc.set("viewBox", (a, b, c, d))
}

/// Relies on `SVG::add` of svg: appends a `path` child.
#[verifier::external_body]
fn document_add_path(doc: SVG, path: Path) -> (r: SVG)
    ensures
        view_box_of(r) == view_box_of(doc),
        document_path_texts(r) == document_path_texts(doc).push(path_texts(path)),
        document_path_data(r) == document_path_data(doc).push(path_data(path)),
{
    doc.add(path)
}

impl Maze {
    /// The wall segments of the maze, cell by cell in row-major order, with
    /// each cell `cell_size` units wide.
    #[verifier::rlimit(50)]
    pub fn outline(&self, cell_size: usize) -> (r: Vec<Segment>)
        requires
            self.wf(),
            self@.width * cell_size <= usize::MAX,
            self@.height * cell_size <= usize::MAX,
        ensures
            r@ == self@.walls_upto(cell_size as int, self@.size() as int),
            forall|i: int|
                0 <= i < r@.len() ==> within(
                    #[trigger] r@[i],
                    self@.width * cell_size,
                    self@.height * cell_size,
                ),
    {
        let n = self.width() * self.height();
        let mut r: Vec<Segment> = Vec::new();
        let cells = self.cells();
        let mut i: usize = 0;
        while i < n
            invariant
                self.wf(),
                n == self@.size(),
                cells@ == self@.cell_seq(),
                i <= n,
                self@.width * cell_size <= usize::MAX,
                self@.height * cell_size <= usize::MAX,
                r@ == self@.walls_upto(cell_size as int, i as int),
                forall|j: int|
                    0 <= j < r@.len() ==> within(
                        #[trigger] r@[j],
                        self@.width * cell_size,
                        self@.height * cell_size,
                    ),
            decreases n - i,
        {
            let cell = cells[i];
            proof {
                crate::maze::lemma_cell_at_inside(self@, i as int);
                let w = self@.width as int;
                let h = self@.height as int;
                let s = cell_size as int;
                assert((cell.x + 1) * s <= w * s) by (nonlinear_arith)
                    requires
                        cell.x < w,
                        s >= 0,
                ;
                assert((cell.y + 1) * s <= h * s) by (nonlinear_arith)
                    requires
                        cell.y < h,
                        s >= 0,
                ;
                assert(cell.x * s <= (cell.x + 1) * s) by (nonlinear_arith)
                    requires
                        s >= 0,
                ;
                assert(cell.y * s <= (cell.y + 1) * s) by (nonlinear_arith)
                    requires
                        s >= 0,
                ;
                assert(s <= (cell.x + 1) * s && s <= (cell.y + 1) * s) by (nonlinear_arith)
                    requires
                        s >= 0,
                ;
            }
            let x1 = cell.x * cell_size;
            let y1 = cell.y * cell_size;
            let x2 = (cell.x + 1) * cell_size;
            let y2 = (cell.y + 1) * cell_size;
            let ghost prev = r@;
            let neighbours = self.neighbours(&cell);
            if !neighbours.contains_key(&Direction::North) {
                r.push(Segment { x: x1, y: y1, horizontal: true, length: cell_size });
            }
            if !neighbours.contains_key(&Direction::West) {
                r.push(Segment { x: x1, y: y1, horizontal: false, length: cell_size });
            }
            if !self.is_linked(&cell, Direction::East) {
                r.push(Segment { x: x2, y: y1, horizontal: false, length: cell_size });
            }
            if !self.is_linked(&cell, Direction::South) {
                r.push(Segment { x: x1, y: y2, horizontal: true, length: cell_size });
            }
            proof {
                assert(r@ =~= prev + self@.cell_walls(cell, cell_size as int));
                let wm = self@.width * cell_size;
                let hm = self@.height * cell_size;
                assert(x1 <= wm && x2 <= wm && y1 <= hm && y2 <= hm);
                assert forall|j: int| 0 <= j < r@.len() implies within(#[trigger] r@[j], wm, hm) by {
                    if j < prev.len() {
                        assert(within(prev[j], wm, hm));
                    }
                }
            }
            i = i + 1;
        }
        r
    }

    /// An SVG document of `cell_size * width` by `cell_size * height` units
    /// holding one unfilled black path that strokes every segment of `outline`.
    pub fn to_svg(&self, cell_size: usize) -> (r: SVG)
        requires
            self.wf(),
            self@.width * cell_size <= PATH_NUMBER_LIMIT,
            self@.height * cell_size <= PATH_NUMBER_LIMIT,
        ensures
            view_box_of(r) == seq![
                0usize,
                0usize,
                (self@.width * cell_size) as usize,
                (self@.height * cell_size) as usize,
            ],
            document_path_texts(r) == seq![
                Texts::empty().insert("fill"@, "none"@).insert(
                    "stroke"@,
                    "black"@,
                ).insert("stroke-width"@, "1"@),
            ],
            document_path_data(r) == seq![
                commands_of(self@.walls_upto(cell_size as int, self@.size() as int)),
            ],
    {
        let segments = self.outline(cell_size);
        let mut data = data_new();
        let mut i: usize = 0;
        while i < segments.len()
            invariant
                i <= segments@.len(),
                forall|j: int|
                    0 <= j < segments@.len() ==> within(
                        #[trigger] segments@[j],
                        self@.width * cell_size,
                        self@.height * cell_size,
                    ),
                self@.width * cell_size <= PATH_NUMBER_LIMIT,
                self@.height * cell_size <= PATH_NUMBER_LIMIT,
                data_commands(data) == commands_of(segments@.take(i as int)),
            decreases segments@.len() - i,
        {
            let s = segments[i];
            proof {
                assert(within(segments@[i as int], self@.width * cell_size, self@.height * cell_size));
            }
            data = data_move_to(data, s.x, s.y);
            if s.horizontal {
                data = data_horizontal_line_by(data, s.length);
            } else {
                data = data_vertical_line_by(data, s.length);
            }
            proof {
                assert(segments@.take(i + 1).drop_last() =~= segments@.take(i as int));
            }
            i = i + 1;
        }
        proof {
            assert(segments@.take(segments@.len() as int) =~= segments@);
            reveal_strlit("d");
            reveal_strlit("fill");
            reveal_strlit("stroke");
            reveal_strlit("stroke-width");
            assert("fill"@[0] != "d"@[0]);
            assert("stroke"@[0] != "d"@[0]);
            assert("stroke-width"@[0] != "d"@[0]);
        }
        let path = path_new();
        let path = path_set_text(path, "fill", "none");
        let path = path_set_text(path, "stroke", "black");
        let path = path_set_text(path, "stroke-width", "1");
        let path = path_set_data(path, data);
        let doc = document_new();
        let doc = document_set_view_box(
            doc,
            0,
            0,
            self.width() * cell_size,
            self.height() * cell_size,
        );
        let r = document_add_path(doc, path);
        proof {
            assert(document_path_texts(r) =~= seq![path_texts(path)]);
            assert(document_path_data(r) =~= seq![path_data(path)]);
        }
        r
    }
}

} // verus!
