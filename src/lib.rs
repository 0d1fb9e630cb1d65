//! Perfect mazes over rectangular grids: the grid graph, two spanning-tree
//! generators (binary tree and sidewinder) and text and vector renderers.
pub mod binary_tree;
pub mod carving;
pub mod laws;
pub mod maze;
pub mod random;
pub mod sidewinder;
pub mod vector;
