//! The T-square fractal, drawn as SVG.
//!
//! A rectangle spawns four half-sized rectangles centred on its corners,
//! each of those spawns four more, and so on down to a chosen depth. The
//! rectangles are collected in drawing order, the root first and every
//! corner completed before the next is begun, and rendered as one `rect`
//! element each inside an `svg` element.
//!
//! Coordinates are binary fractions: integers that count units of
//! `2^-frac_bits`. Halving and quartering such a number is exact, so every
//! rectangle of the fractal is where the geometry puts it, and the decimal
//! numbers in the rendered text are exact as well. A depth asks for two
//! more fractional bits per level; `Rect::supports` tells whether a root
//! has room for it.
//!
//! - `geometry`: rectangles and their subdivision into corner rectangles.
//! - `fractal`: the rectangles below a root, in drawing order.
//! - `decimal`: exact decimal notation for binary fractions.
//! - `markup`: the calls into the `svg` crate, with the contracts that
//!   the rest of the library relies on.
//! - `document`: the drawing and its rendering.

pub mod decimal;
pub mod document;
pub mod fractal;
pub mod geometry;
pub mod markup;
