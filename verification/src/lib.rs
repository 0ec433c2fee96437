//! A point-region quadtree over a bounded grid of pixels.
//!
//! A tree stands for a rectangular region and keeps the points inserted into
//! it in leaves that hold at most one point each. When a second point
//! reaches a leaf, the leaf is replaced by a node with four quadrants, and
//! both points are handed down, each expressed in the frame of the quadrant
//! it is sorted into. Every division draws its two dividing lines on a
//! canvas of palette indices, and a tree can draw all of its lines at once.
//!
//! - [`quadrant`]: the four quadrants and the rule that sorts a point into one.
//! - [`canvas`]: the grid that is drawn on, and the cells of a cross.
//! - [`tree`]: leaves, nodes, insertion and rendering.
//! - [`laws`]: what holds of insertion and rendering, proved.
//! - [`screen`]: the extents of the screen, and how a grid becomes a frame.
//! - [`sandbox`]: circles that move across the screen, and their tree.
//! - [`fire`]: a grid of heat that rises and cools.

pub mod canvas;
pub mod fire;
pub mod laws;
pub mod quadrant;
pub mod sandbox;
pub mod screen;
pub mod tree;
