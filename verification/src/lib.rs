//! A first-person view of a 2D wall/open grid on a character-cell display.
//!
//! The library owns the whole raycasting pipeline: the grid data model with
//! its textual loader and serializer (`level`), and the projection of ray-hit
//! distances into vertical screen-column spans with distance shading
//! (`render`).  All geometry is carried in fixed-point milli-units (one grid
//! unit = `level::SCALE` milli-units), so every computation is exact integer
//! arithmetic.  Turning an angle into a direction vector is trigonometry and
//! stays with the caller, which hands in the direction as a milli-unit pair.

pub mod level;
pub mod render;
