use mazes::maze::{Cell, Maze};
use mazes::vector::{Segment, PATH_NUMBER_LIMIT};

fn seg(x: usize, y: usize, horizontal: bool, length: usize) -> Segment {
    Segment { x, y, horizontal, length }
}

#[test]
fn outline_of_singleton_is_a_square() {
    let maze = Maze::new(1, 1);
    assert_eq!(
        maze.outline(10),
        vec![
            seg(0, 0, true, 10),
            seg(0, 0, false, 10),
            seg(10, 0, false, 10),
            seg(0, 10, true, 10),
        ]
    );
}

#[test]
fn outline_leaves_out_linked_walls() {
    let mut maze = Maze::new(2, 1);
    maze.link(&Cell::new(0, 0), &Cell::new(1, 0));
    assert_eq!(
        maze.outline(5),
        vec![
            seg(0, 0, true, 5),
            seg(0, 0, false, 5),
            seg(0, 5, true, 5),
            seg(5, 0, true, 5),
            seg(10, 0, false, 5),
            seg(5, 5, true, 5),
        ]
    );
}

#[test]
fn svg_document_has_bounding_box_and_path() {
    let maze = Maze::new(2, 3);
    let text = maze.to_svg(10).to_string();
    assert!(text.contains("viewBox=\"0 0 20 30\""));
    assert!(text.contains("stroke=\"black\""));
    assert!(text.contains("fill=\"none\""));
    assert!(text.contains("M0,0 h10"));
}

#[test]
fn svg_at_the_exact_number_limit() {
    let maze = Maze::new(1, 1);
    let text = maze.to_svg(PATH_NUMBER_LIMIT).to_string();
    assert!(text.contains("h16777216"));
    assert!(text.contains("viewBox=\"0 0 16777216 16777216\""));
}
