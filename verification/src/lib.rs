//! A Newton-fractal engine.
//!
//! A picture colours every pixel of a grid by the root of a polynomial that
//! Newton's iteration reaches from the pixel's point of the complex plane,
//! and shades it by its distance from the edges between the basins of the
//! roots.
//!
//! The engine is written for any type of number that brings the arithmetic
//! of `scalar::Scalar`. What it states of a computed number is by which
//! operations, from which operands and in which order the number was made;
//! what it states of indices, tables and flags it states of their values.
//!
//! - `scalar`: the arithmetic that the engine asks of its numbers.
//! - `complex8`: eight complex numbers at once, lane by lane.
//! - `polynomial`: polynomials built from their roots, their values,
//!   derivatives, sums and products.
//! - `flags`: the first and the last flag that is set.
//! - `solver`: the Newton iteration of a pixel or of a batch of eight, and
//!   the final choice of its root index.
//! - `row`: the pixels of one row, in batches and one by one.
//! - `table`: the shared table of root indices and the commit of its rows.
//! - `edge`: the edges between basins.
//! - `stencil`: the gradient and the blur of a field.
//! - `shade`: the palette of a pixel.
//! - `config`: the check of the integer parameters of a render.

pub mod config;
pub mod scalar;
pub mod table;
pub mod edge;
pub mod complex8;
pub mod polynomial;
pub mod flags;
pub mod solver;
pub mod row;
pub mod stencil;
pub mod shade;
