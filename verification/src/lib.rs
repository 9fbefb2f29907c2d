//! A memoized quadtree engine for two-dimensional outer-totalistic cellular
//! automata (Conway's Game of Life and its variants), with a hash-consed node
//! arena, a rule-string compiler, an RLE pattern parser, and a Braille
//! framebuffer renderer.

pub mod cell;
pub mod camera;
pub mod cellbuf;
pub mod events;
pub mod parse_rle;
pub mod parse_util;
pub mod rule_set;
pub mod util;
pub mod world;

use vstd::prelude::*;

verus! {

/// Width or height of the on-screen framebuffer, in Braille glyphs.
pub type ScreenSize = u16;

/// A pixel offset on the screen, measured from the viewport origin.
pub type CellOffset = i16;

/// A cell coordinate in the world plane.
pub type WorldOffset = i128;

} // verus!
