use mazes::maze::{Cell, Direction, Maze};
use std::collections::HashMap;

fn neighbour_map(maze: &Maze, cell: &Cell) -> HashMap<Direction, Cell> {
    maze.neighbours(cell).entries().into_iter().collect()
}

#[test]
fn empty_maze_has_no_cells() {
    let maze = Maze::new(0, 0);

    assert_eq!(maze.cells(), vec![])
}

#[test]
fn maze_provides_cells() {
    let maze = Maze::new(3, 4);

    assert_eq!(
        maze.cells(),
        vec![
            Cell::new(0, 0),
            Cell::new(1, 0),
            Cell::new(2, 0),
            Cell::new(0, 1),
            Cell::new(1, 1),
            Cell::new(2, 1),
            Cell::new(0, 2),
            Cell::new(1, 2),
            Cell::new(2, 2),
            Cell::new(0, 3),
            Cell::new(1, 3),
            Cell::new(2, 3),
        ]
    )
}

#[test]
fn maze_provides_rows() {
    let maze = Maze::new(3, 4);

    assert_eq!(
        maze.rows(),
        vec![
            vec![Cell::new(0, 0), Cell::new(1, 0), Cell::new(2, 0),],
            vec![Cell::new(0, 1), Cell::new(1, 1), Cell::new(2, 1),],
            vec![Cell::new(0, 2), Cell::new(1, 2), Cell::new(2, 2),],
            vec![Cell::new(0, 3), Cell::new(1, 3), Cell::new(2, 3),]
        ]
    )
}

#[test]
fn maze_knows_cell_neighbours() {
    let maze = Maze::new(3, 4);

    assert_eq!(
        neighbour_map(&maze, &Cell::new(1, 2)),
        [
            (Direction::North, Cell::new(1, 1)),
            (Direction::South, Cell::new(1, 3)),
            (Direction::West, Cell::new(0, 2)),
            (Direction::East, Cell::new(2, 2)),
        ]
        .iter()
        .cloned()
        .collect()
    )
}

#[test]
fn maze_cell_neighbours_on_edge() {
    let maze = Maze::new(3, 4);

    assert_eq!(
        neighbour_map(&maze, &Cell::new(0, 0)),
        [
            (Direction::South, Cell::new(0, 1)),
            (Direction::East, Cell::new(1, 0)),
        ]
        .iter()
        .cloned()
        .collect()
    );
    assert_eq!(
        neighbour_map(&maze, &Cell::new(2, 3)),
        vec![
            (Direction::North, Cell::new(2, 2)),
            (Direction::West, Cell::new(1, 3)),
        ]
        .iter()
        .cloned()
        .collect()
    );
}

#[test]
fn maze_links_cells() {
    let mut maze = Maze::new(3, 4);

    assert_eq!(maze.links(&Cell::new(0, 0)), vec![]);

    maze.link(&Cell::new(0, 0), &Cell::new(0, 1));
    assert_eq!(maze.links(&Cell::new(0, 1)), vec![Cell::new(0, 0)]);
    assert_eq!(maze.links(&Cell::new(0, 0)), vec![Cell::new(0, 1)]);

    maze.link(&Cell::new(0, 0), &Cell::new(1, 0));
    assert_eq!(maze.links(&Cell::new(0, 1)), vec![Cell::new(0, 0)]);
    assert_eq!(
        maze.links(&Cell::new(0, 0)),
        vec![Cell::new(0, 1), Cell::new(1, 0)]
    );
}

#[test]
fn display_singleton_maze() {
    let maze = Maze::new(1, 1);
    assert_eq!(
        maze.to_string(),
        "+---+\n\
         |   |\n\
         +---+"
    )
}

#[test]
fn display_maze_without_links() {
    let maze = Maze::new(3, 3);
    assert_eq!(
        maze.to_string(),
        "+---+---+---+\n\
         |   |   |   |\n\
         +---+---+---+\n\
         |   |   |   |\n\
         +---+---+---+\n\
         |   |   |   |\n\
         +---+---+---+"
    )
}

#[test]
fn display_maze_with_links() {
    let mut maze = Maze::new(3, 3);
    maze.link(&Cell::new(0, 0), &Cell::new(1, 0));
    maze.link(&Cell::new(0, 0), &Cell::new(0, 1));
    maze.link(&Cell::new(2, 2), &Cell::new(1, 2));
    maze.link(&Cell::new(2, 2), &Cell::new(2, 1));

    assert_eq!(
        maze.to_string(),
        "+---+---+---+\n\
         |       |   |\n\
         +   +---+---+\n\
         |   |   |   |\n\
         +---+---+   +\n\
         |   |       |\n\
         +---+---+---+"
    );
}

#[test]
fn fresh_maze_has_no_links_anywhere() {
    let maze = Maze::new(4, 2);
    assert_eq!(maze.cells().len(), 8);
    for cell in maze.cells() {
        assert!(maze.links(&cell).is_empty());
    }
}

#[test]
fn neighbour_counts_by_position() {
    let single = Maze::new(1, 1);
    assert_eq!(single.neighbours(&Cell::new(0, 0)).len(), 0);

    let maze = Maze::new(4, 3);
    assert_eq!(maze.neighbours(&Cell::new(0, 0)).len(), 2);
    assert_eq!(maze.neighbours(&Cell::new(3, 0)).len(), 2);
    assert_eq!(maze.neighbours(&Cell::new(0, 2)).len(), 2);
    assert_eq!(maze.neighbours(&Cell::new(3, 2)).len(), 2);
    assert_eq!(maze.neighbours(&Cell::new(1, 0)).len(), 3);
    assert_eq!(maze.neighbours(&Cell::new(0, 1)).len(), 3);
    assert_eq!(maze.neighbours(&Cell::new(3, 1)).len(), 3);
    assert_eq!(maze.neighbours(&Cell::new(2, 2)).len(), 3);
    assert_eq!(maze.neighbours(&Cell::new(1, 1)).len(), 4);
    assert_eq!(maze.neighbours(&Cell::new(2, 1)).len(), 4);
}

#[test]
fn neighbour_lookup_by_direction() {
    let maze = Maze::new(3, 4);
    let n = maze.neighbours(&Cell::new(0, 3));
    assert_eq!(n.get(&Direction::North), Some(Cell::new(0, 2)));
    assert_eq!(n.get(&Direction::East), Some(Cell::new(1, 3)));
    assert_eq!(n.get(&Direction::South), None);
    assert!(!n.contains_key(&Direction::West));
}

#[test]
fn linking_is_symmetric_for_distant_cells() {
    let mut maze = Maze::new(5, 5);
    maze.link(&Cell::new(0, 0), &Cell::new(4, 4));
    assert!(maze.links(&Cell::new(0, 0)).contains(&Cell::new(4, 4)));
    assert!(maze.links(&Cell::new(4, 4)).contains(&Cell::new(0, 0)));
}

#[test]
fn linking_twice_records_twice() {
    let mut maze = Maze::new(2, 1);
    maze.link(&Cell::new(0, 0), &Cell::new(1, 0));
    maze.link(&Cell::new(1, 0), &Cell::new(0, 0));
    assert_eq!(
        maze.links(&Cell::new(0, 0)),
        vec![Cell::new(1, 0), Cell::new(1, 0)]
    );
    assert_eq!(
        maze.links(&Cell::new(1, 0)),
        vec![Cell::new(0, 0), Cell::new(0, 0)]
    );
}

#[test]
fn is_linked_follows_direction() {
    let mut maze = Maze::new(3, 3);
    maze.link(&Cell::new(1, 1), &Cell::new(1, 0));
    assert!(maze.is_linked(&Cell::new(1, 1), Direction::North));
    assert!(maze.is_linked(&Cell::new(1, 0), Direction::South));
    assert!(!maze.is_linked(&Cell::new(1, 1), Direction::East));
    assert!(!maze.is_linked(&Cell::new(0, 0), Direction::North));
}

#[test]
fn display_two_by_one_with_passage() {
    let mut maze = Maze::new(2, 1);
    maze.link(&Cell::new(0, 0), &Cell::new(1, 0));
    assert_eq!(maze.to_string(), "+---+---+\n|       |\n+---+---+");
}

#[test]
fn display_empty_maze() {
    assert_eq!(Maze::new(0, 0).to_string(), "+");
}
