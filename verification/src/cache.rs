use vstd::prelude::*;

use crate::maths::{Cell, WorldPosition};
use crate::map::{GameMap, Tile};
use crate::trace::{
    grid_in_range, spec_group, spec_midpoint, spec_trace, trace, TraceError, CELL_BOUND,
};
use crate::raster::{cell_range, render, spec_buffer_byte, spec_cell_range};

verus! {

/// A fault that stops a render pass.
#[derive(Debug, Clone, Copy, PartialEq, Eq, Structural)]
pub enum RenderFault {
    /// The tracer met a structural invariant violation.
    Trace(TraceError),
    /// The bounding box calls for a buffer larger than this machine can
    /// address.
    BufferTooLarge,
}

/// The per-tile midpoint polygons denoted by the traced, grouped model.
pub open spec fn model_points(gp: Seq<(Tile, Seq<Seq<(Cell, Cell)>>)>) -> Seq<
    (Tile, Seq<Seq<WorldPosition>>),
> {
    Seq::new(
        gp.len(),
        |i: int|
            (
                gp[i].0,
                Seq::new(
                    gp[i].1.len(),
                    |j: int|
                        Seq::new(gp[i].1[j].len(), |k: int| spec_midpoint(gp[i].1[j][k])),
                ),
            ),
    )
}

/// Whether the grid's bounding box fits a pixel buffer this machine can
/// address.
pub open spec fn spec_size_ok(g: GameMap) -> bool {
    let range = spec_cell_range(g);
    ((range.1.0 - range.0.0 + 1) * 128) * ((range.1.1 - range.0.1 + 1) * 128) * 4
        <= usize::MAX
}

/// Whether a buffer with its cell bounds is the full fresh render of the
/// grid: traced loops, grouped by tile, rasterized over the grid's bounding
/// box.
pub open spec fn spec_fresh(g: GameMap, buf: Seq<u8>, bounds: (Cell, Cell)) -> bool {
    let range = spec_cell_range(g);
    let w = (range.1.0 - range.0.0 + 1) * 128;
    let h = (range.1.1 - range.0.1 + 1) * 128;
    &&& spec_trace(g) is Some
    &&& bounds.0.0 == range.0.0 && bounds.0.1 == range.0.1 && bounds.1.0 == range.1.0
        && bounds.1.1 == range.1.1
    &&& buf.len() == w * h * 4
    &&& forall|i: int|
        0 <= i < buf.len() ==> #[trigger] buf[i] == spec_buffer_byte(
            model_points(spec_group(spec_trace(g)->Some_0)),
            bounds.0,
            w,
            i,
        )
}

/// Owns the grid and the pre-rendered pixel buffer for its current state:
/// the cache is dropped by any tile change and rebuilt on demand, so a held
/// buffer is always the full render of the grid as it stands.
pub struct RenderCache {
    game_map: GameMap,
    cached: Option<(Vec<u8>, (Cell, Cell))>,
}

impl RenderCache {
    /// The grid the cache renders.
    pub closed spec fn spec_map(&self) -> GameMap {
        self.game_map
    }

    /// The held buffer and the cell bounds it covers, if any.
    pub closed spec fn spec_cached(&self) -> Option<(Seq<u8>, (Cell, Cell))> {
        match self.cached {
            None => None,
            Some(c) => Some((c.0@, c.1)),
        }
    }

    /// The grid is well-formed and within the tracer's bounds, and any held
    /// buffer is the fresh render of the grid as it stands.
    pub open spec fn wf(&self) -> bool {
        &&& self.spec_map().wf()
        &&& grid_in_range(self.spec_map())
        &&& self.spec_map().entries().len() + 1 < usize::MAX as int / 8
        &&& match self.spec_cached() {
            None => true,
            Some(c) => spec_fresh(self.spec_map(), c.0, c.1),
        }
    }

    /// Take ownership of a grid, with nothing rendered yet.
    pub fn new(game_map: GameMap) -> (r: Self)
        requires
            game_map.wf(),
            grid_in_range(game_map),
            game_map.entries().len() + 1 < usize::MAX as int / 8,
        ensures
            r.wf(),
            r.spec_map() == game_map,
            r.spec_cached() is None,
    {
        RenderCache { game_map, cached: None }
    }

    /// Get tile infos from its position
    pub fn get_tile(&self, position: Cell) -> (r: Tile)
        requires
            self.wf(),
        ensures
            r == self.spec_map().spec_tile_at(position),
    {
        self.game_map.get_tile(position)
    }

    /// Set tile infos, dropping the cached buffer when the tile actually
    /// changes; return true in that case.
    pub fn set_tile(&mut self, position: Cell, tile: Tile) -> (changed: bool)
        requires
            old(self).wf(),
            -CELL_BOUND <= position.0 <= CELL_BOUND,
            -CELL_BOUND <= position.1 <= CELL_BOUND,
            old(self).spec_map().entries().len() + 2 < usize::MAX as int / 8,
        ensures
            final(self).wf(),
            final(self).spec_map().contents() == old(self).spec_map().contents().insert(
                position,
                tile,
            ),
            changed == !(old(self).spec_map().contents().contains_key(position) && old(
                self,
            ).spec_map().contents()[position] == tile),
            changed ==> final(self).spec_cached() is None,
            !changed ==> *final(self) == *old(self),
    {
        let changed = self.game_map.set_tile(position, tile);
        if changed {
            self.cached = None;
        }
        changed
    }

    /// Drop the cached buffer, forcing the next `ensure_fresh` to re-trace
    /// and re-rasterize.
    pub fn invalidate(&mut self)
        requires
            old(self).wf(),
        ensures
            final(self).wf(),
            final(self).spec_map() == old(self).spec_map(),
            final(self).spec_cached() is None,
    {
        self.cached = None;
    }

    /// Re-trace and re-rasterize the grid unless a fresh buffer is already
    /// held; afterwards, on success, the held buffer is the full render of
    /// the grid as it stands.
    pub fn ensure_fresh(&mut self) -> (r: Result<(), RenderFault>)
        requires
            old(self).wf(),
        ensures
            final(self).wf(),
            final(self).spec_map() == old(self).spec_map(),
            r is Ok ==> (final(self).spec_cached() matches Some(c) && spec_fresh(
                final(self).spec_map(),
                c.0,
                c.1,
            )),
            r is Ok <==> spec_size_ok(old(self).spec_map()) && spec_trace(
                old(self).spec_map(),
            ) is Some,
            r == Err::<(), RenderFault>(RenderFault::BufferTooLarge) <==> !spec_size_ok(
                old(self).spec_map(),
            ),
            old(self).spec_cached() is Some ==> *final(self) == *old(self) && r is Ok,
    {
        match &self.cached {
            Some(c) => {
                let n = c.0.len();
                proof {
                    let cs = self.spec_cached()->Some_0;
                    assert(spec_fresh(self.spec_map(), cs.0, cs.1));
                    assert(cs.0.len() == n);
                    assert(spec_size_ok(self.spec_map())) by {
                        let range = spec_cell_range(self.spec_map());
                        let w = (range.1.0 - range.0.0 + 1) * 128;
                        let h = (range.1.1 - range.0.1 + 1) * 128;
                        assert(cs.0.len() == w * h * 4);
                        assert(n <= usize::MAX);
                    }
                }
                return Ok(());
            },
            None => {},
        }
        let range = cell_range(&self.game_map);
        let (start, end) = range;
        let wu: u64 = (end.0 - start.0 + 1) as u64 * 128;
        let hu: u64 = (end.1 - start.1 + 1) as u64 * 128;
        proof {
            assert(wu * (hu * 4) <= 0x1000_0000_0000_0000) by (nonlinear_arith)
                requires
                    0 < wu <= 536870912,
                    0 < hu <= 536870912,
            ;
        }
        let need: u64 = wu * (hu * 4);
        if need > usize::MAX as u64 {
            proof {
                assert(wu as int * (hu as int * 4) == ((end.0 - start.0 + 1) * 128) * ((end.1
                    - start.1 + 1) * 128) * 4) by (nonlinear_arith)
                    requires
                        wu == (end.0 - start.0 + 1) * 128,
                        hu == (end.1 - start.1 + 1) * 128,
                ;
            }
            return Err(RenderFault::BufferTooLarge);
        }
        proof {
            assert(wu as int * (hu as int * 4) == ((end.0 - start.0 + 1) * 128) * ((end.1 - start.1
                + 1) * 128) * 4) by (nonlinear_arith)
                requires
                    wu == (end.0 - start.0 + 1) * 128,
                    hu == (end.1 - start.1 + 1) * 128,
            ;
        }
        let ls = match trace(&self.game_map) {
            Ok(ls) => ls,
            Err(e) => {
                return Err(RenderFault::Trace(e));
            },
        };
        let buffer = render(&ls, start, end);
        proof {
            let g = self.spec_map();
            let m = spec_trace(g)->Some_0;
            let gp = spec_group(m);
            assert(ls.points_model() =~~= model_points(gp)) by {
                assert(ls.points_model().len() == model_points(gp).len());
                assert forall|i: int| 0 <= i < gp.len() implies ls.points_model()[i]
                    =~~= model_points(gp)[i] by {
                    assert(ls.points_model()[i].0 == model_points(gp)[i].0);
                    assert forall|j: int| 0 <= j < gp[i].1.len() implies ls.points_model()[i].1[j]
                        =~= model_points(gp)[i].1[j] by {
                        let lp = ls.entries@[i].1@[j];
                        assert(lp.pairs@ == gp[i].1[j]);
                        assert(forall|k: int|
                            0 <= k < lp.pairs@.len() ==> #[trigger] lp.points@[k] == spec_midpoint(
                                lp.pairs@[k],
                            ));
                    }
                }
            }
        }
        self.cached = Some((buffer, (start, end)));
        Ok(())
    }

    /// The held buffer with the cell bounds it covers, read-only; `None`
    /// until a render pass has run since the last change.
    pub fn buffer(&self) -> (r: Option<&(Vec<u8>, (Cell, Cell))>)
        requires
            self.wf(),
        ensures
            match r {
                None => self.spec_cached() is None,
                Some(c) => self.spec_cached() == Some((c.0@, c.1)) && spec_fresh(
                    self.spec_map(),
                    c.0@,
                    c.1,
                ),
            },
    {
        self.cached.as_ref()
    }
}

} // verus!
