use vstd::prelude::*;

use crate::maths::{
    in_range, sdf_polygon, spec_sdf_multi_upto, spec_sdf_multiple_polygons, Cell, WorldPosition,
    SCALE,
};
use crate::map::Tile;
use crate::trace::{Loop, LoopSet, CELL_BOUND};

verus! {

/// How many pixels cover one cell edge in the pre-rendered buffer.
pub const PRE_RENDERING_CELL_SIZE: u32 = 128;

/// The point polygons of a list of loops.
pub open spec fn points_of_loops(loops: Seq<Loop>) -> Seq<Seq<WorldPosition>> {
    Seq::new(loops.len(), |j: int| loops[j].points@)
}

/// The signed distance from a point to the loops of one tile entry.
fn sdf_loops(tested_point: &WorldPosition, loops: &Vec<Loop>) -> (r: i64)
    requires
        in_range(*tested_point),
        forall|j: int|
            0 <= j < loops@.len() ==> (#[trigger] loops@[j]).points@.len() >= 1 && (forall|k: int|
                0 <= k < loops@[j].points@.len() ==> in_range(#[trigger] loops@[j].points@[k])),
    ensures
        r == spec_sdf_multiple_polygons(*tested_point, points_of_loops(loops@)),
        i64::MIN < r,
{
    let ghost polys = points_of_loops(loops@);
    let mut best: i64 = i64::MAX;
    let mut i: usize = 0;
    while i < loops.len()
        invariant
            i <= loops@.len(),
            in_range(*tested_point),
            polys == points_of_loops(loops@),
            forall|j: int|
                0 <= j < loops@.len() ==> (#[trigger] loops@[j]).points@.len() >= 1 && (forall|
                    k: int,
                |
                    0 <= k < loops@[j].points@.len() ==> in_range(
                        #[trigger] loops@[j].points@[k],
                    )),
            best == spec_sdf_multi_upto(*tested_point, polys, i as int),
            i64::MIN < best,
        decreases loops@.len() - i,
    {
        proof {
            assert(polys[i as int] == loops@[i as int].points@);
        }
        let d = sdf_polygon(tested_point, &loops[i].points);
        let da = if d < 0 {
            -d
        } else {
            d
        };
        let ba = if best < 0 {
            -best
        } else {
            best
        };
        if da < ba {
            best = d;
        }
        i += 1;
    }
    best
}

/// The banding term added to the green channel inside a region: a
/// fixed-point approximation of `sin(-d * 10)` scaled to 64, with the
/// negative half-waves clamped to zero as a byte conversion of the sine
/// would clamp them. Angles are in coordinate units, `SCALE` per radian.
pub open spec fn spec_band(d: int) -> int {
    let arg = -d * 10;
    let r = arg % 1608;
    if r <= 804 {
        let t = r * (804 - r);
        let q = (1024 * t) / (3232080 - 4 * t);
        if q < 64 {
            q
        } else {
            64
        }
    } else {
        0
    }
}

/// The banding term is a small byte.
pub proof fn lemma_band_bounds(d: int)
    ensures
        0 <= spec_band(d) <= 64,
{
    let arg = -d * 10;
    let r = arg % 1608;
    vstd::arithmetic::div_mod::lemma_mod_bound(arg, 1608);
    if r <= 804 {
        let t = r * (804 - r);
        assert(0 <= t <= 161604) by (nonlinear_arith)
            requires
                t == r * (804 - r),
                0 <= r <= 804,
        ;
        let q = (1024 * t) / (3232080 - 4 * t);
        assert(0 <= q) by {
            vstd::arithmetic::div_mod::lemma_div_is_ordered(0, 1024 * t, 3232080 - 4 * t);
        }
    }
}

/// The banding term of a (non-positive) signed distance.
fn band(d: i64) -> (r: u8)
    requires
        d <= 0,
        i64::MIN < d,
    ensures
        r as int == spec_band(d as int),
        r <= 64,
{
    let arg: u128 = ((-d) as u128) * 10;
    let rm: i64 = (arg % 1608) as i64;
    proof {
        assert(arg % 1608 < 1608);
        assert(rm == (-d * 10) % 1608) by {
            assert(arg == -d * 10);
        }
        vstd::arithmetic::div_mod::lemma_mod_bound(-d * 10, 1608);
    }
    if rm <= 804 {
        proof {
            assert(0 <= rm * (804 - rm) && rm * (804 - rm) <= 161604) by (nonlinear_arith)
                requires
                    0 <= rm <= 804,
            ;
        }
        let t = rm * (804 - rm);
        let q = (1024 * t) / (3232080 - 4 * t);
        proof {
            vstd::arithmetic::div_mod::lemma_div_is_ordered(0, 1024 * t, 3232080 - 4 * t);
        }
        if q < 64 {
            q as u8
        } else {
            64
        }
    } else {
        0
    }
}

/// The tile whose region lies nearest the point among the first `k` entries,
/// with its signed distance; earlier entries win ties.
pub open spec fn spec_best(
    m: Seq<(Tile, Seq<Seq<WorldPosition>>)>,
    pos: WorldPosition,
    k: int,
) -> Option<(Tile, int)>
    decreases k,
{
    if k <= 0 {
        None
    } else {
        let prev = spec_best(m, pos, k - 1);
        let d = spec_sdf_multiple_polygons(pos, m[k - 1].1);
        match prev {
            None => Some((m[k - 1].0, d)),
            Some(p) => if vstd::math::abs(d) < vstd::math::abs(p.1) {
                Some((m[k - 1].0, d))
            } else {
                prev
            },
        }
    }
}

/// The BGRA bytes of one pixel: the base colour of the nearest tile with a
/// banding term on the green channel when the point lies inside its region,
/// and the white background everywhere else.
pub open spec fn spec_pixel(m: Seq<(Tile, Seq<Seq<WorldPosition>>)>, pos: WorldPosition) -> (
    u8,
    u8,
    u8,
    u8,
) {
    match spec_best(m, pos, m.len() as int) {
        None => (255u8, 255u8, 255u8, 255u8),
        Some(p) => if p.1 <= 0 {
            let c = p.0.spec_color();
            (c.b, (c.g + spec_band(p.1)) as u8, c.r, 255u8)
        } else {
            (255u8, 255u8, 255u8, 255u8)
        },
    }
}

/// The world position sampled for the pixel at `(x, y)` of a buffer whose
/// top-left corner is the start cell's corner.
pub open spec fn spec_pixel_pos(start: Cell, x: int, y: int) -> WorldPosition {
    WorldPosition(
        (SCALE * start.0 + 2 * x) as i64,
        (SCALE * start.1 + 2 * y) as i64,
    )
}

/// The byte at offset `i` of the rendered buffer: pixels are laid out row
/// by row, four bytes each, in B, G, R, A order.
pub open spec fn spec_buffer_byte(
    m: Seq<(Tile, Seq<Seq<WorldPosition>>)>,
    start: Cell,
    w: int,
    i: int,
) -> u8 {
    let p = i / 4;
    let ch = i % 4;
    let x = p % w;
    let y = p / w;
    let px = spec_pixel(m, spec_pixel_pos(start, x, y));
    if ch == 0 {
        px.0
    } else if ch == 1 {
        px.1
    } else if ch == 2 {
        px.2
    } else {
        px.3
    }
}

/// The cell-aligned bounding box of the populated cells among the first `k`
/// map entries, seeded from the first populated cell; an empty prefix keeps
/// the origin cell's box.
pub open spec fn spec_cell_range_upto(s: Seq<(Cell, crate::map::Tile)>, k: int) -> (
    (int, int),
    (int, int),
)
    decreases k,
{
    if k <= 0 {
        ((0, 0), (0, 0))
    } else if k == 1 {
        ((s[0].0.0 as int, s[0].0.1 as int), (s[0].0.0 as int, s[0].0.1 as int))
    } else {
        let p = spec_cell_range_upto(s, k - 1);
        let c = s[k - 1].0;
        (
            (vstd::math::min(p.0.0, c.0 as int), vstd::math::min(p.0.1, c.1 as int)),
            (vstd::math::max(p.1.0, c.0 as int), vstd::math::max(p.1.1, c.1 as int)),
        )
    }
}

/// The cell-aligned bounding box of all populated cells of a grid: the
/// smallest axis-aligned rectangle covering them, or the origin cell's box
/// when nothing is populated.
pub open spec fn spec_cell_range(g: crate::map::GameMap) -> ((int, int), (int, int)) {
    spec_cell_range_upto(g.entries(), g.entries().len() as int)
}

/// A bounding box over in-range cells is ordered and stays in range.
pub proof fn lemma_cell_range_bounds(s: Seq<(Cell, crate::map::Tile)>, k: int)
    requires
        0 <= k <= s.len(),
        forall|i: int|
            0 <= i < s.len() ==> {
                let c = (#[trigger] s[i]).0;
                -CELL_BOUND <= c.0 <= CELL_BOUND && -CELL_BOUND <= c.1 <= CELL_BOUND
            },
    ensures
        ({
            let p = spec_cell_range_upto(s, k);
            &&& -CELL_BOUND <= p.0.0 <= p.1.0 <= CELL_BOUND
            &&& -CELL_BOUND <= p.0.1 <= p.1.1 <= CELL_BOUND
        }),
    decreases k,
{
    if k > 1 {
        lemma_cell_range_bounds(s, k - 1);
    }
}

/// The box of the first `k` entries covers each of their cells, and each of
/// its four sides touches one of them, so no smaller box covers them.
pub proof fn lemma_cell_range_covers(s: Seq<(Cell, crate::map::Tile)>, k: int)
    requires
        0 <= k <= s.len(),
    ensures
        ({
            let p = spec_cell_range_upto(s, k);
            &&& forall|i: int|
                0 <= i < k ==> {
                    let c = (#[trigger] s[i]).0;
                    p.0.0 <= c.0 <= p.1.0 && p.0.1 <= c.1 <= p.1.1
                }
            &&& k >= 1 ==> (exists|i: int| 0 <= i < k && (#[trigger] s[i]).0.0 == p.0.0)
            &&& k >= 1 ==> (exists|i: int| 0 <= i < k && (#[trigger] s[i]).0.1 == p.0.1)
            &&& k >= 1 ==> (exists|i: int| 0 <= i < k && (#[trigger] s[i]).0.0 == p.1.0)
            &&& k >= 1 ==> (exists|i: int| 0 <= i < k && (#[trigger] s[i]).0.1 == p.1.1)
        }),
    decreases k,
{
    let p = spec_cell_range_upto(s, k);
    if k == 1 {
        assert(s[0].0.0 == p.0.0 && s[0].0.1 == p.0.1);
    } else if k > 1 {
        lemma_cell_range_covers(s, k - 1);
        let q = spec_cell_range_upto(s, k - 1);
        let c = s[k - 1].0;
        if p.0.0 == c.0 as int {
            assert(s[k - 1].0.0 == p.0.0);
        } else {
            let i = choose|i: int| 0 <= i < k - 1 && (#[trigger] s[i]).0.0 == q.0.0;
            assert(s[i].0.0 == p.0.0);
        }
        if p.0.1 == c.1 as int {
            assert(s[k - 1].0.1 == p.0.1);
        } else {
            let i = choose|i: int| 0 <= i < k - 1 && (#[trigger] s[i]).0.1 == q.0.1;
            assert(s[i].0.1 == p.0.1);
        }
        if p.1.0 == c.0 as int {
            assert(s[k - 1].0.0 == p.1.0);
        } else {
            let i = choose|i: int| 0 <= i < k - 1 && (#[trigger] s[i]).0.0 == q.1.0;
            assert(s[i].0.0 == p.1.0);
        }
        if p.1.1 == c.1 as int {
            assert(s[k - 1].0.1 == p.1.1);
        } else {
            let i = choose|i: int| 0 <= i < k - 1 && (#[trigger] s[i]).0.1 == q.1.1;
            assert(s[i].0.1 == p.1.1);
        }
    }
}

/// The bounding box of the populated cells, in cell units: the smallest
/// axis-aligned rectangle covering every populated cell, as the top-left and
/// bottom-right cell; an unpopulated grid yields the origin cell's box.
pub fn cell_range(map: &crate::map::GameMap) -> (r: (Cell, Cell))
    requires
        crate::trace::grid_in_range(*map),
    ensures
        r.0.0 as int == spec_cell_range(*map).0.0,
        r.0.1 as int == spec_cell_range(*map).0.1,
        r.1.0 as int == spec_cell_range(*map).1.0,
        r.1.1 as int == spec_cell_range(*map).1.1,
        -CELL_BOUND <= r.0.0 <= r.1.0 <= CELL_BOUND,
        -CELL_BOUND <= r.0.1 <= r.1.1 <= CELL_BOUND,
        forall|i: int|
            0 <= i < map.entries().len() ==> {
                let c = (#[trigger] map.entries()[i]).0;
                r.0.0 <= c.0 <= r.1.0 && r.0.1 <= c.1 <= r.1.1
            },
        map.entries().len() == 0 ==> r == (Cell(0, 0), Cell(0, 0)),
        map.entries().len() > 0 ==> (exists|i: int|
            0 <= i < map.entries().len() && (#[trigger] map.entries()[i]).0.0 == r.0.0) && (
        exists|i: int|
            0 <= i < map.entries().len() && (#[trigger] map.entries()[i]).0.1 == r.0.1) && (
        exists|i: int|
            0 <= i < map.entries().len() && (#[trigger] map.entries()[i]).0.0 == r.1.0) && (
        exists|i: int|
            0 <= i < map.entries().len() && (#[trigger] map.entries()[i]).0.1 == r.1.1),
{
    let tiles = map.iter_tiles();
    proof {
        lemma_cell_range_bounds(map.entries(), map.entries().len() as int);
        lemma_cell_range_covers(map.entries(), map.entries().len() as int);
    }
    if tiles.len() == 0 {
        return (Cell(0, 0), Cell(0, 0));
    }
    let ((x0, y0), _) = tiles[0];
    let mut lo = (x0, y0);
    let mut hi = (x0, y0);
    let mut i: usize = 1;
    while i < tiles.len()
        invariant
            crate::trace::grid_in_range(*map),
            tiles@.len() == map.entries().len(),
            forall|k: int|
                0 <= k < tiles@.len() ==> #[trigger] tiles@[k] == (
                    (map.entries()[k].0.0, map.entries()[k].0.1),
                    map.entries()[k].1,
                ),
            1 <= i <= tiles@.len(),
            lo.0 as int == spec_cell_range_upto(map.entries(), i as int).0.0,
            lo.1 as int == spec_cell_range_upto(map.entries(), i as int).0.1,
            hi.0 as int == spec_cell_range_upto(map.entries(), i as int).1.0,
            hi.1 as int == spec_cell_range_upto(map.entries(), i as int).1.1,
            -CELL_BOUND <= lo.0 <= hi.0 <= CELL_BOUND,
            -CELL_BOUND <= lo.1 <= hi.1 <= CELL_BOUND,
        decreases tiles@.len() - i,
    {
        let ((cx, cy), _) = tiles[i];
        if cx < lo.0 {
            lo.0 = cx;
        }
        if cx > hi.0 {
            hi.0 = cx;
        }
        if cy < lo.1 {
            lo.1 = cy;
        }
        if cy > hi.1 {
            hi.1 = cy;
        }
        i += 1;
    }
    (Cell(lo.0, lo.1), Cell(hi.0, hi.1))
}

/// Two buffers rendered from the same loops over the same bounds are
/// byte-identical: the buffer is a function of its inputs alone.
pub proof fn lemma_render_idempotent(
    b1: Seq<u8>,
    b2: Seq<u8>,
    m: Seq<(Tile, Seq<Seq<WorldPosition>>)>,
    start: Cell,
    w: int,
    len: int,
)
    requires
        b1.len() == len,
        b2.len() == len,
        forall|i: int| 0 <= i < len ==> #[trigger] b1[i] == spec_buffer_byte(m, start, w, i),
        forall|i: int| 0 <= i < len ==> #[trigger] b2[i] == spec_buffer_byte(m, start, w, i),
    ensures
        b1 == b2,
{
    assert(b1 =~= b2);
}

/// A buffer rendered from an empty loop set is background white throughout.
pub proof fn lemma_render_empty_background(
    m: Seq<(Tile, Seq<Seq<WorldPosition>>)>,
    start: Cell,
    w: int,
    i: int,
)
    requires
        m.len() == 0,
    ensures
        spec_buffer_byte(m, start, w, i) == 255u8,
{
    let p = i / 4;
    let x = p % w;
    let y = p / w;
    assert(spec_best(m, spec_pixel_pos(start, x, y), 0) is None);
}

/// The pixel size of the buffer covering the cells from `start` to `end`.
pub fn texture_size(start: Cell, end: Cell) -> (r: (u32, u32))
    requires
        start.0 <= end.0,
        start.1 <= end.1,
        (end.0 - start.0 + 1) * PRE_RENDERING_CELL_SIZE <= u32::MAX,
        (end.1 - start.1 + 1) * PRE_RENDERING_CELL_SIZE <= u32::MAX,
    ensures
        r.0 == (end.0 - start.0 + 1) * PRE_RENDERING_CELL_SIZE,
        r.1 == (end.1 - start.1 + 1) * PRE_RENDERING_CELL_SIZE,
{
    (
        (end.0 - start.0 + 1) as u32 * PRE_RENDERING_CELL_SIZE,
        (end.1 - start.1 + 1) as u32 * PRE_RENDERING_CELL_SIZE,
    )
}

/// Fill an RGBA8 buffer (B, G, R, A byte order) covering the cells from
/// `start` to `end` at `PRE_RENDERING_CELL_SIZE` pixels per cell: every
/// pixel inside the nearest tile's region takes that tile's colour with a
/// banding term, every other pixel the white background. The buffer is a
/// function of the loop set and bounds alone.
#[verifier::rlimit(100)]
pub fn render(loop_set: &LoopSet, start: Cell, end: Cell) -> (r: Vec<u8>)
    requires
        loop_set.wf(),
        -CELL_BOUND <= start.0 <= end.0 <= CELL_BOUND,
        -CELL_BOUND <= start.1 <= end.1 <= CELL_BOUND,
        ((end.0 - start.0 + 1) * 128) * ((end.1 - start.1 + 1) * 128) * 4 <= usize::MAX,
    ensures
        r@.len() == ((end.0 - start.0 + 1) * 128) * ((end.1 - start.1 + 1) * 128) * 4,
        forall|i: int|
            0 <= i < r@.len() ==> #[trigger] r@[i] == spec_buffer_byte(
                loop_set.points_model(),
                start,
                (end.0 - start.0 + 1) * 128,
                i,
            ),
{
    let ghost m = loop_set.points_model();
    let (w, h) = texture_size(start, end);
    proof {
        assert(w as int * (h as int * 4) == ((end.0 - start.0 + 1) * 128) * ((end.1 - start.1 + 1)
            * 128) * 4) by (nonlinear_arith)
            requires
                w == (end.0 - start.0 + 1) * 128,
                h == (end.1 - start.1 + 1) * 128,
        ;
    }
    let total: usize = (w as usize) * ((h as usize) * 4);
    let mut buffer: Vec<u8> = vec![0u8; total];
    let mut x: u32 = 0;
    while x < w
        invariant
            loop_set.wf(),
            m == loop_set.points_model(),
            -CELL_BOUND <= start.0 <= end.0 <= CELL_BOUND,
            -CELL_BOUND <= start.1 <= end.1 <= CELL_BOUND,
            w == (end.0 - start.0 + 1) * 128,
            h == (end.1 - start.1 + 1) * 128,
            x <= w,
            buffer@.len() == w as int * (h as int * 4),
            buffer@.len() <= usize::MAX,
            forall|i: int|
                0 <= i < buffer@.len() ==> ((i / 4) % (w as int) < x ==> #[trigger] buffer@[i]
                    == spec_buffer_byte(m, start, w as int, i)),
        decreases w - x,
    {
        let mut y: u32 = 0;
        while y < h
            invariant
                loop_set.wf(),
                m == loop_set.points_model(),
                -CELL_BOUND <= start.0 <= end.0 <= CELL_BOUND,
                -CELL_BOUND <= start.1 <= end.1 <= CELL_BOUND,
                w == (end.0 - start.0 + 1) * 128,
                h == (end.1 - start.1 + 1) * 128,
                x < w,
                y <= h,
                buffer@.len() == w as int * (h as int * 4),
                buffer@.len() <= usize::MAX,
                forall|i: int|
                    0 <= i < buffer@.len() ==> (((i / 4) % (w as int) < x || ((i / 4) % (w as int)
                        == x && (i / 4) / (w as int) < y)) ==> #[trigger] buffer@[i]
                        == spec_buffer_byte(m, start, w as int, i)),
            decreases h - y,
        {
            let pos = WorldPosition(
                SCALE * (start.0 as i64) + 2 * (x as i64),
                SCALE * (start.1 as i64) + 2 * (y as i64),
            );
            proof {
                assert(pos == spec_pixel_pos(start, x as int, y as int));
                assert(in_range(pos));
            }
            let mut best: Option<(Tile, i64)> = None;
            let mut t: usize = 0;
            while t < loop_set.entries.len()
                invariant
                    loop_set.wf(),
                    m == loop_set.points_model(),
                    in_range(pos),
                    t <= loop_set.entries@.len(),
                    m.len() == loop_set.entries@.len(),
                    ({
                        match best {
                            None => spec_best(m, pos, t as int) is None,
                            Some(p) => spec_best(m, pos, t as int) == Some((p.0, p.1 as int))
                                && i64::MIN < p.1 && p.0 != Tile::Empty,
                        }
                    }),
                decreases loop_set.entries@.len() - t,
            {
                proof {
                    assert(m[t as int] == (
                        loop_set.entries@[t as int].0,
                        points_of_loops(loop_set.entries@[t as int].1@),
                    ));
                }
                let d = sdf_loops(&pos, &loop_set.entries[t].1);
                let tl = loop_set.entries[t].0;
                match best {
                    None => {
                        best = Some((tl, d));
                    },
                    Some(p) => {
                        let da = if d < 0 {
                            -d
                        } else {
                            d
                        };
                        let pa = if p.1 < 0 {
                            -p.1
                        } else {
                            p.1
                        };
                        if da < pa {
                            best = Some((tl, d));
                        }
                    },
                }
                t += 1;
            }
            let bytes: (u8, u8, u8, u8) = match best {
                None => (255, 255, 255, 255),
                Some(p) => {
                    if p.1 <= 0 {
                        let c = p.0.tile_color();
                        proof {
                            assert(c.g <= 128);
                            lemma_band_bounds(p.1 as int);
                        }
                        let a = band(p.1);
                        (c.b, c.g + a, c.r, 255)
                    } else {
                        (255, 255, 255, 255)
                    }
                },
            };
            proof {
                assert(bytes == spec_pixel(m, pos));
            }
            let pitch: usize = (w as usize) * 4;
            proof {
                assert((y as int) * (pitch as int) + (x as int) * 4 + 3 < (w as int) * ((
                h as int) * 4)) by (nonlinear_arith)
                    requires
                        pitch as int == (w as int) * 4,
                        0 <= x < w,
                        0 <= y < h,
                ;
            }
            let offset: usize = (y as usize) * pitch + (x as usize) * 4;
            let ghost buf_pre = buffer@;
            buffer[offset] = bytes.0;
            buffer[offset + 1] = bytes.1;
            buffer[offset + 2] = bytes.2;
            buffer[offset + 3] = bytes.3;
            proof {
                let wi = w as int;
                let p = (y as int) * wi + (x as int);
                assert(offset as int == p * 4) by (nonlinear_arith)
                    requires
                        offset == (y as int) * (wi * 4) + (x as int) * 4,
                        p == (y as int) * wi + (x as int),
                ;
                assert forall|ch: int| 0 <= ch < 4 implies #[trigger] ((p * 4 + ch) / 4) == p && (
                p * 4 + ch) % 4 == ch by {
                    vstd::arithmetic::div_mod::lemma_fundamental_div_mod_converse(
                        p * 4 + ch,
                        4,
                        p,
                        ch,
                    );
                }
                assert(p % wi == x as int && p / wi == y as int) by {
                    vstd::arithmetic::div_mod::lemma_fundamental_div_mod_converse(
                        p,
                        wi,
                        y as int,
                        x as int,
                    );
                }
                assert forall|i: int|
                    0 <= i < buffer@.len() && ((i / 4) % wi < x || ((i / 4) % wi == x && (i / 4)
                        / wi < y + 1)) implies #[trigger] buffer@[i] == spec_buffer_byte(
                    m,
                    start,
                    wi,
                    i,
                ) by {
                    let ip = i / 4;
                    let ch = i % 4;
                    vstd::arithmetic::div_mod::lemma_fundamental_div_mod(i, 4);
                    vstd::arithmetic::div_mod::lemma_mod_bound(i, 4);
                    vstd::arithmetic::div_mod::lemma_fundamental_div_mod(ip, wi);
                    vstd::arithmetic::div_mod::lemma_mod_bound(ip, wi);
                    if ip % wi == x as int && ip / wi == y as int {
                        assert(ip == wi * (y as int) + (x as int));
                        assert(wi * (y as int) == (y as int) * wi) by (nonlinear_arith);
                        assert(ip == (y as int) * wi + (x as int));
                        assert(i == p * 4 + ch);
                        assert(offset as int <= i <= offset as int + 3);
                        assert(buffer@[i] == (if ch == 0 {
                            bytes.0
                        } else if ch == 1 {
                            bytes.1
                        } else if ch == 2 {
                            bytes.2
                        } else {
                            bytes.3
                        }));
                    } else {
                        assert(i < offset as int || i > offset as int + 3) by {
                            if offset as int <= i <= offset as int + 3 {
                                assert(i == p * 4 + (i - p * 4));
                                assert(0 <= i - p * 4 < 4);
                                assert(ip == p);
                            }
                        }
                        assert(buffer@[i] == buf_pre[i]);
                    }
                }
            }
            y += 1;
        }
        proof {
            assert forall|i: int|
                0 <= i < buffer@.len() && (i / 4) % (w as int) < x + 1 implies #[trigger] buffer@[i]
                == spec_buffer_byte(m, start, w as int, i) by {
                let ip = i / 4;
                vstd::arithmetic::div_mod::lemma_fundamental_div_mod(ip, w as int);
                vstd::arithmetic::div_mod::lemma_mod_bound(ip, w as int);
                vstd::arithmetic::div_mod::lemma_fundamental_div_mod(i, 4);
                vstd::arithmetic::div_mod::lemma_mod_bound(i, 4);
                if (i / 4) % (w as int) == x as int {
                    assert((i / 4) / (w as int) < h as int) by {
                        assert(i < (w as int) * ((h as int) * 4));
                        assert(ip * 4 <= i);
                        assert(ip < (w as int) * (h as int)) by (nonlinear_arith)
                            requires
                                ip * 4 <= i,
                                i < (w as int) * ((h as int) * 4),
                                0 <= ip,
                        ;
                        assert(ip == (w as int) * (ip / (w as int)) + ip % (w as int));
                        assert(ip / (w as int) >= 0) by (nonlinear_arith)
                            requires
                                ip == (w as int) * (ip / (w as int)) + ip % (w as int),
                                0 <= ip % (w as int) < w as int,
                                0 <= ip,
                        ;
                        assert(ip / (w as int) < h as int) by (nonlinear_arith)
                            requires
                                ip == (w as int) * (ip / (w as int)) + ip % (w as int),
                                0 <= ip % (w as int) < w as int,
                                ip < (w as int) * (h as int),
                                0 < h,
                                (ip / (w as int)) >= 0,
                        ;
                    }
                }
            }
        }
        x += 1;
    }
    buffer
}

} // verus!
