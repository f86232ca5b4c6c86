use vstd::prelude::*;

pub mod cache;
pub mod map;
pub mod maths;
pub mod mouse;
pub mod raster;
pub mod trace;

pub use maths::{Cell, Side, Directions, WindowPosition, WorldPosition};
pub use map::{GameMap, Tile, Color};
pub use mouse::{Mouse, MouseButton};
pub use trace::{trace, Loop, LoopSet, TraceError};
pub use raster::{render, cell_range, texture_size, PRE_RENDERING_CELL_SIZE};
pub use cache::{RenderCache, RenderFault};

verus! {

} // verus!
