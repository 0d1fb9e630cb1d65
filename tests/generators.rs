use mazes::binary_tree::BinaryTree;
use mazes::maze::{Cell, Direction, Maze};
use mazes::sidewinder::Sidewinder;

fn link_entries(maze: &Maze) -> usize {
    maze.cells().iter().map(|c| maze.links(c).len()).sum()
}

fn reachable(maze: &Maze) -> usize {
    let cells = maze.cells();
    if cells.is_empty() {
        return 0;
    }
    let mut seen = vec![cells[0]];
    let mut todo = vec![cells[0]];
    while let Some(c) = todo.pop() {
        for n in maze.links(&c) {
            if !seen.contains(&n) {
                seen.push(n);
                todo.push(n);
            }
        }
    }
    seen.len()
}

#[test]
fn binary_tree_does_nothing_on_empty_maze() {
    let maze = Maze::new(0, 0);

    let maze = BinaryTree::on(maze);

    assert_eq!(maze, Maze::new(0, 0));
}

#[test]
fn binary_tree_does_nothing_on_singleton_maze() {
    let maze = Maze::new(1, 1);

    let maze = BinaryTree::on(maze);

    assert_eq!(maze, Maze::new(1, 1));
}

#[test]
fn binary_tree_connects_every_cell_of_maze() {
    let maze = Maze::new(20, 20);

    let maze = BinaryTree::on(maze);

    for cell in maze.cells() {
        assert_ne!(maze.links(&cell).len(), 0);
    }
}

#[test]
fn sidewinder_does_nothing_on_empty_maze() {
    let maze = Maze::new(0, 0);

    let maze = Sidewinder::on(maze);

    assert_eq!(maze, Maze::new(0, 0));
}

#[test]
fn sidewinder_tree_does_nothing_on_singleton_maze() {
    let maze = Maze::new(1, 1);

    let maze = Sidewinder::on(maze);

    assert_eq!(maze, Maze::new(1, 1));
}

#[test]
fn sidewinder_tree_connects_every_cell_of_maze() {
    let maze = Maze::new(20, 20);

    let maze = Sidewinder::on(maze);

    for cell in maze.cells() {
        assert_ne!(maze.links(&cell).len(), 0);
    }
}

#[test]
fn binary_tree_builds_spanning_trees() {
    for (w, h) in [(20, 20), (1, 7), (7, 1), (2, 2), (5, 3)] {
        let maze = BinaryTree::on(Maze::new(w, h));
        assert_eq!(link_entries(&maze), 2 * (w * h - 1));
        assert_eq!(reachable(&maze), w * h);
    }
}

#[test]
fn sidewinder_builds_spanning_trees() {
    for (w, h) in [(20, 20), (1, 7), (7, 1), (2, 2), (5, 3)] {
        let maze = Sidewinder::on(Maze::new(w, h));
        assert_eq!(link_entries(&maze), 2 * (w * h - 1));
        assert_eq!(reachable(&maze), w * h);
    }
}

#[test]
fn generators_on_empty_rows_or_columns() {
    assert_eq!(BinaryTree::on(Maze::new(0, 5)), Maze::new(0, 5));
    assert_eq!(Sidewinder::on(Maze::new(5, 0)), Maze::new(5, 0));
}

#[test]
fn binary_tree_carve_follows_the_draws() {
    let maze = BinaryTree::carve(Maze::new(3, 3), &vec![0; 9]);
    // Even draws pick north wherever north exists; the top row goes east.
    assert!(maze.is_linked(&Cell::new(0, 0), Direction::East));
    assert!(maze.is_linked(&Cell::new(1, 0), Direction::East));
    for y in 1..3 {
        for x in 0..3 {
            assert!(maze.is_linked(&Cell::new(x, y), Direction::North));
            assert!(!maze.is_linked(&Cell::new(x, y), Direction::East));
        }
    }
    let odd = BinaryTree::carve(Maze::new(3, 3), &vec![1; 9]);
    assert!(odd.is_linked(&Cell::new(0, 2), Direction::East));
    assert!(odd.is_linked(&Cell::new(2, 2), Direction::North));
    assert!(!odd.is_linked(&Cell::new(0, 2), Direction::North));
}

#[test]
fn carving_is_reproducible() {
    let draws: Vec<usize> = (0..20).map(|i| i * 7 % 5).collect();
    assert_eq!(
        BinaryTree::carve(Maze::new(5, 4), &draws),
        BinaryTree::carve(Maze::new(5, 4), &draws)
    );
    let coins: Vec<bool> = (0..20).map(|i| i % 3 == 0).collect();
    assert_eq!(
        Sidewinder::carve(Maze::new(5, 4), &coins, &draws),
        Sidewinder::carve(Maze::new(5, 4), &coins, &draws)
    );
}

#[test]
fn sidewinder_carve_follows_the_choices() {
    // No coin closes a run early, so every row is one run closed at the east
    // edge; draw 0 joins it north through its first cell.
    let maze = Sidewinder::carve(Maze::new(3, 3), &vec![false; 9], &vec![0; 9]);
    for y in 0..3 {
        assert!(maze.is_linked(&Cell::new(0, y), Direction::East));
        assert!(maze.is_linked(&Cell::new(1, y), Direction::East));
    }
    assert!(maze.is_linked(&Cell::new(0, 1), Direction::North));
    assert!(maze.is_linked(&Cell::new(0, 2), Direction::North));
    assert!(!maze.is_linked(&Cell::new(1, 1), Direction::North));
    // Every coin set: each cell below the top row is its own run.
    let maze = Sidewinder::carve(Maze::new(3, 3), &vec![true; 9], &vec![4; 9]);
    for y in 1..3 {
        for x in 0..3 {
            assert!(maze.is_linked(&Cell::new(x, y), Direction::North));
            assert!(!maze.is_linked(&Cell::new(x, y), Direction::East));
        }
    }
    assert_eq!(link_entries(&maze), 16);
}
