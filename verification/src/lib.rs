//! A raster canvas for a small software graphics pipeline, and the integer
//! rules of the pipeline around it.
//!
//! - `image`: the canvas, a fixed grid of RGB pixels with optional toroidal
//!   addressing on each axis, and its plot primitive
//! - `raster`: segments and filled triangles, drawn point by point
//! - `fill`: a bounded, four-connected flood fill
//! - `encode`, `decode`: the binary and textual pixel-dump formats
//! - `script`: the grammar of the drawing scripts that drive a canvas
//! - `shape`, `mesh`: which matrices multiply, and the triangles of a box
//!
//! Every function states what it returns or changes, and is proved to do
//! so; the laws that hold across functions are stated as proof functions
//! beside them.

pub mod colors;
pub mod decode;
pub mod encode;
pub mod fill;
pub mod image;
pub mod mesh;
pub mod raster;
pub mod script;
pub mod shape;
