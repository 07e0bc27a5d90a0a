//! A software rasterization core: a frame buffer with a depth buffer, the
//! triangle traversal that resolves visibility per pixel, integer line and
//! polygon drawing, and the lattice hashes behind procedural surface noise.
//!
//! Every pixel is computed on the host processor. Numeric work on real-valued
//! geometry and colour stays with the caller, who hands over pixels, depths
//! as bit patterns, and functions that sample and shade a surface; this crate
//! holds the discrete part, and states and proves what each operation does
//! to the buffer.
//!
//! - [`framebuffer`]: the colour and depth grids and the writes to them.
//! - [`visibility`]: what depth testing guarantees, whatever the order of
//!   submission.
//! - [`triangle`]: the traversal of a triangle's bounding box.
//! - [`line`]: Bresenham lines and closed outlines.
//! - [`noise`]: hashes of lattice cells.
//! - [`color`], [`depth`], [`point`]: the values that all of them work on.

pub mod color;
pub mod depth;
pub mod framebuffer;
pub mod line;
pub mod noise;
pub mod point;
pub mod triangle;
pub mod visibility;
