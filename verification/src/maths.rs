use vstd::prelude::*;

verus! {

/// World positions are held in fixed-point form: this many coordinate units
/// make up one grid cell, so every boundary midpoint (a half-cell position)
/// and every oversampled pixel centre is represented exactly.
pub const SCALE: i64 = 256;

/// Represent a position on the window in pixel, therefore is most of the time non-negative
#[derive(Debug, Clone, Copy, PartialEq, Eq, Structural)]
pub struct WindowPosition(pub i32, pub i32);

/// Represent an in world position in fixed-point coordinate units
/// (`SCALE` units per cell): the cell's position is the floor of the
/// coordinate divided by `SCALE`.
#[derive(Debug, Clone, Copy, PartialEq, Eq, Structural)]
pub struct WorldPosition(pub i64, pub i64);

/// Represent a cell's position
#[derive(Debug, Clone, Copy, PartialEq, Eq, Structural, Hash)]
pub struct Cell(pub i32, pub i32);

impl Cell {
    /// Give the world position of the top left corner of the cell
    pub fn start_point(&self) -> (r: WorldPosition)
        ensures
            r.0 == SCALE * self.0,
            r.1 == SCALE * self.1,
    {
        WorldPosition(SCALE * self.0 as i64, SCALE * self.1 as i64)
    }

    /// Give the world position of the center of the cell
    pub fn center_point(&self) -> (r: WorldPosition)
        ensures
            r.0 == SCALE * self.0 + SCALE / 2,
            r.1 == SCALE * self.1 + SCALE / 2,
    {
        WorldPosition(SCALE * self.0 as i64 + SCALE / 2, SCALE * self.1 as i64 + SCALE / 2)
    }

    /// Give the world position of the bottom right corner of the cell
    pub fn end_point(&self) -> (r: WorldPosition)
        ensures
            r.0 == SCALE * (self.0 + 1),
            r.1 == SCALE * (self.1 + 1),
    {
        WorldPosition(SCALE * (self.0 as i64 + 1), SCALE * (self.1 as i64 + 1))
    }
}

impl WorldPosition {
    /// Calculate cell indices corresponding to world position: the cell whose
    /// unit-square footprint contains the position (floor of each coordinate).
    pub fn cell(&self) -> (r: Cell)
        requires
            SCALE * (i32::MIN as int) <= self.0 <= SCALE * (i32::MAX as int),
            SCALE * (i32::MIN as int) <= self.1 <= SCALE * (i32::MAX as int),
        ensures
            r.0 == self.0 as int / SCALE as int,
            r.1 == self.1 as int / SCALE as int,
    {
        Cell(floor_div_scale(self.0), floor_div_scale(self.1))
    }
}

/// Floor division of a fixed-point coordinate by `SCALE`.
fn floor_div_scale(v: i64) -> (r: i32)
    requires
        SCALE * (i32::MIN as int) <= v <= SCALE * (i32::MAX as int),
    ensures
        r == v as int / SCALE as int,
{
    if v >= 0 {
        let q = v / SCALE;
        q as i32
    } else {
        let q = -((-v + (SCALE - 1)) / SCALE);
        proof {
            lemma_neg_ceil_is_floor(v as int, SCALE as int);
        }
        q as i32
    }
}

/// For negative `v`, floor division by positive `d` equals the negated
/// rounded-up division of `-v` by `d`.
proof fn lemma_neg_ceil_is_floor(v: int, d: int)
    requires
        v < 0,
        d > 0,
    ensures
        -((-v + (d - 1)) / d) == v / d,
{
    let q = v / d;
    let r = v % d;
    vstd::arithmetic::div_mod::lemma_fundamental_div_mod(v, d);
    vstd::arithmetic::div_mod::lemma_mod_bound(v, d);
    assert(v == d * q + r);
    if r == 0 {
        assert((-v + (d - 1)) == d * (-q) + (d - 1)) by (nonlinear_arith)
            requires
                v == d * q + r,
                r == 0,
        ;
        vstd::arithmetic::div_mod::lemma_fundamental_div_mod_converse(-v + (d - 1), d, -q, d - 1);
    } else {
        assert(-v + (d - 1) == d * (-q) + (d - 1 - r)) by (nonlinear_arith)
            requires
                v == d * q + r,
        ;
        vstd::arithmetic::div_mod::lemma_fundamental_div_mod_converse(-v + (d - 1), d, -q, d - 1 - r);
    }
}

/// Largest coordinate magnitude (in fixed-point units) that the distance
/// functions accept; keeps every intermediate product within `i64`.
pub const MAX_COORD: i64 = 536870912;

/// Whether a position lies within the coordinate range of the distance
/// functions.
pub open spec fn in_range(p: WorldPosition) -> bool {
    -MAX_COORD <= p.0 <= MAX_COORD && -MAX_COORD <= p.1 <= MAX_COORD
}

/// The integer square root: the largest value whose square does not exceed
/// the argument.
pub open spec fn sqrt_floor(n: nat) -> nat
    decreases n,
{
    if n == 0 {
        0
    } else {
        let s = sqrt_floor((n - 1) as nat);
        if (s + 1) * (s + 1) <= n {
            s + 1
        } else {
            s
        }
    }
}

/// `sqrt_floor` is squeezed between the two neighbouring squares.
pub proof fn lemma_sqrt_floor(n: nat)
    ensures
        sqrt_floor(n) * sqrt_floor(n) <= n,
        n < (sqrt_floor(n) + 1) * (sqrt_floor(n) + 1),
    decreases n,
{
    if n == 0 {
        assert(sqrt_floor(n) == 0);
        assert(n < (sqrt_floor(n) + 1) * (sqrt_floor(n) + 1)) by (nonlinear_arith)
            requires
                n == 0,
                sqrt_floor(n) == 0,
        ;
    } else {
        let m = (n - 1) as nat;
        lemma_sqrt_floor(m);
        let s = sqrt_floor(m);
        assert(s * s <= m);
        assert(m < (s + 1) * (s + 1));
        if (s + 1) * (s + 1) <= n {
            assert(sqrt_floor(n) == s + 1);
            assert(n < (s + 2) * (s + 2)) by (nonlinear_arith)
                requires
                    n - 1 < (s + 1) * (s + 1),
            ;
            assert(n < (sqrt_floor(n) + 1) * (sqrt_floor(n) + 1)) by (nonlinear_arith)
                requires
                    sqrt_floor(n) == s + 1,
                    n < (s + 2) * (s + 2),
            ;
        } else {
            assert(sqrt_floor(n) == s);
            assert(n < (sqrt_floor(n) + 1) * (sqrt_floor(n) + 1)) by (nonlinear_arith)
                requires
                    sqrt_floor(n) == s,
                    n < (s + 1) * (s + 1),
            ;
        }
    }
}

/// Any value squeezed between the two neighbouring squares is `sqrt_floor`.
pub proof fn lemma_sqrt_floor_unique(n: nat, r: nat)
    requires
        r * r <= n,
        n < (r + 1) * (r + 1),
    ensures
        r == sqrt_floor(n),
{
    lemma_sqrt_floor(n);
    let s = sqrt_floor(n);
    assert(r == s) by (nonlinear_arith)
        requires
            r * r <= n,
            n < (r + 1) * (r + 1),
            s * s <= n,
            n < (s + 1) * (s + 1),
    ;
}

/// Integer square root of a 64-bit value by bisection.
fn isqrt(n: u64) -> (r: u64)
    ensures
        r == sqrt_floor(n as nat),
{
    let mut lo: u64 = 0;
    let mut hi: u64 = 1 << 32;
    proof {
        assert((1u64 << 32) == 0x1_0000_0000) by (bit_vector);
    }
    while lo + 1 < hi
        invariant
            lo < hi <= 0x1_0000_0000,
            lo * lo <= n,
            n < hi * hi,
        decreases hi - lo,
    {
        let mid = lo + (hi - lo) / 2;
        proof {
            assert((mid as int) * (mid as int) <= 0x1_0000_0000_0000_0000) by (nonlinear_arith)
                requires
                    0 <= mid as int <= 0x1_0000_0000,
            ;
        }
        if (mid as u128) * (mid as u128) <= n as u128 {
            lo = mid;
        } else {
            hi = mid;
        }
    }
    proof {
        lemma_sqrt_floor_unique(n as nat, lo as nat);
    }
    lo
}

/// The smaller-magnitude of two signed distances; the first wins ties.
pub open spec fn min_abs(a: int, b: int) -> int {
    if vstd::math::abs(b) < vstd::math::abs(a) {
        b
    } else {
        a
    }
}

/// The fixed-point distance between two points: the integer square root of
/// the squared Euclidean distance.
pub open spec fn spec_dist(a: WorldPosition, b: WorldPosition) -> int {
    sqrt_floor(((a.0 - b.0) * (a.0 - b.0) + (a.1 - b.1) * (a.1 - b.1)) as nat) as int
}

/// Distance between two points
pub fn dist(a: &WorldPosition, b: &WorldPosition) -> (r: i64)
    requires
        in_range(*a),
        in_range(*b),
    ensures
        r == spec_dist(*a, *b),
        0 <= r <= 3 * MAX_COORD,
{
    let dx = a.0 - b.0;
    let dy = a.1 - b.1;
    proof {
        assert(0 <= dx * dx <= 0x1000_0000_0000_0000 && 0 <= dy * dy <= 0x1000_0000_0000_0000)
            by (nonlinear_arith)
            requires
                -1073741824 <= dx <= 1073741824,
                -1073741824 <= dy <= 1073741824,
        ;
    }
    let sq = (dx * dx) as u64 + (dy * dy) as u64;
    let r = isqrt(sq);
    proof {
        lemma_sqrt_floor(sq as nat);
        assert(sqrt_floor(sq as nat) <= 3 * (MAX_COORD as int)) by (nonlinear_arith)
            requires
                sqrt_floor(sq as nat) * sqrt_floor(sq as nat) <= sq,
                sq <= 0x2000_0000_0000_0000,
                MAX_COORD == 536870912,
        ;
    }
    r as i64
}

/// dot-product of two vectors
pub fn dot(v: &(i64, i64), w: &(i64, i64)) -> (r: i64)
    requires
        vstd::math::abs(v.0 as int) <= 2 * MAX_COORD,
        vstd::math::abs(v.1 as int) <= 2 * MAX_COORD,
        vstd::math::abs(w.0 as int) <= 2 * MAX_COORD,
        vstd::math::abs(w.1 as int) <= 2 * MAX_COORD,
    ensures
        r == v.0 * w.0 + v.1 * w.1,
{
    proof {
        assert(-0x1000_0000_0000_0000 <= v.0 * w.0 <= 0x1000_0000_0000_0000
            && -0x1000_0000_0000_0000 <= v.1 * w.1 <= 0x1000_0000_0000_0000) by (nonlinear_arith)
            requires
                -1073741824 <= v.0 <= 1073741824,
                -1073741824 <= v.1 <= 1073741824,
                -1073741824 <= w.0 <= 1073741824,
                -1073741824 <= w.1 <= 1073741824,
        ;
    }
    v.0 * w.0 + v.1 * w.1
}

/// The signed fixed-point distance from a point to the segment from `s` to
/// `e`: positive to the left of the direction of travel as drawn on screen
/// (x right, y down), negative to its right.
/// A point whose projection falls outside the segment is measured to the
/// nearer endpoint, keeping the sign of the line side. A degenerate segment
/// (`s == e`) has no distance and yields the `i64::MAX` sentinel, which any
/// genuine distance beats in a smallest-magnitude comparison.
pub open spec fn spec_sdf_segment(p: WorldPosition, s: WorldPosition, e: WorldPosition) -> int {
    if s == e {
        i64::MAX as int
    } else {
        let la = e.1 - s.1;
        let lb = s.0 - e.0;
        let lc = s.1 * (e.0 - s.0) - s.0 * (e.1 - s.1);
        let n = la * p.0 + lb * p.1 + lc;
        let dse = (e.0 - s.0) * (p.0 - s.0) + (e.1 - s.1) * (p.1 - s.1);
        let dee = (s.0 - e.0) * (p.0 - e.0) + (s.1 - e.1) * (p.1 - e.1);
        let mag = if dse <= 0 || dee <= 0 {
            vstd::math::min(spec_dist(p, s), spec_dist(p, e))
        } else {
            vstd::math::abs(n) as int / sqrt_floor((la * la + lb * lb) as nat) as int
        };
        if n >= 0 {
            mag
        } else {
            -mag
        }
    }
}

/// Function returning the signed distance to a segment: positive at the left
/// of the direction of travel as drawn on screen (y down), negative at the
/// right
pub fn sdf_segment(tested_point: &WorldPosition, start: &WorldPosition, end: &WorldPosition) -> (r:
    i64)
    requires
        in_range(*tested_point),
        in_range(*start),
        in_range(*end),
    ensures
        r == spec_sdf_segment(*tested_point, *start, *end),
        i64::MIN < r,
{
    if start.0 == end.0 && start.1 == end.1 {
        return i64::MAX;
    }
    // Cartesian form (ax + by + c = 0) of the line through the segment
    let la = end.1 - start.1;
    let lb = start.0 - end.0;
    proof {
        lemma_coef_products_bounded(
            tested_point.0 as int,
            tested_point.1 as int,
            start.0 as int,
            start.1 as int,
            end.0 as int,
            end.1 as int,
        );
        assert(la as int == end.1 as int - start.1 as int);
        assert(lb as int == start.0 as int - end.0 as int);
        assert(0 <= (la as int) * (la as int) <= 0x1000_0000_0000_0000);
        assert(0 <= (lb as int) * (lb as int) <= 0x1000_0000_0000_0000);
        assert((la as int) * (la as int) + (lb as int) * (lb as int) >= 1);
    }
    let lc = start.1 * (end.0 - start.0) - start.0 * (end.1 - start.1);

    // Signed numerator: its sign tells the side of the line
    let n = la * tested_point.0 + lb * tested_point.1 + lc;
    let n_abs = if n >= 0 {
        n
    } else {
        -n
    };

    // If one angle is obtuse, the closest point on the line won't be on the
    // segment so it is either the start or the end
    let dse = dot(&(end.0 - start.0, end.1 - start.1), &(tested_point.0 - start.0, tested_point.1
        - start.1));
    let dee = dot(&(start.0 - end.0, start.1 - end.1), &(tested_point.0 - end.0, tested_point.1
        - end.1));

    let mag = if dse <= 0 || dee <= 0 {
        // Min of the distances to the two endpoints
        let ds = dist(tested_point, start);
        let de = dist(tested_point, end);
        if ds <= de {
            ds
        } else {
            de
        }
    } else {
        // Distance to the line itself
        let sq = (la * la) as u64 + (lb * lb) as u64;
        let den = isqrt(sq);
        proof {
            lemma_sqrt_floor(sq as nat);
            if den == 0 {
                assert(false) by (nonlinear_arith)
                    requires
                        (sq as nat) < (sqrt_floor(sq as nat) + 1) * (sqrt_floor(sq as nat) + 1),
                        sqrt_floor(sq as nat) == 0,
                        sq >= 1,
                ;
            }
        }
        ((n_abs as u64) / den) as i64
    };
    if n >= 0 {
        mag
    } else {
        -mag
    }
}

/// All the products formed from the coordinates of three in-range points
/// stay comfortably within `i64`, and a proper segment's normal vector has
/// positive squared length.
proof fn lemma_coef_products_bounded(px: int, py: int, sx: int, sy: int, ex: int, ey: int)
    requires
        -536870912 <= px <= 536870912,
        -536870912 <= py <= 536870912,
        -536870912 <= sx <= 536870912,
        -536870912 <= sy <= 536870912,
        -536870912 <= ex <= 536870912,
        -536870912 <= ey <= 536870912,
        ex != sx || ey != sy,
    ensures
        (ey - sy) * (ey - sy) + (sx - ex) * (sx - ex) >= 1,
        0 <= (ey - sy) * (ey - sy) <= 0x1000_0000_0000_0000,
        0 <= (sx - ex) * (sx - ex) <= 0x1000_0000_0000_0000,
        -0x0800_0000_0000_0000 <= sy * (ex - sx) <= 0x0800_0000_0000_0000,
        -0x0800_0000_0000_0000 <= sx * (ey - sy) <= 0x0800_0000_0000_0000,
        -0x0800_0000_0000_0000 <= (ey - sy) * px <= 0x0800_0000_0000_0000,
        -0x0800_0000_0000_0000 <= (sx - ex) * py <= 0x0800_0000_0000_0000,
{
    let la = ey - sy;
    let lb = sx - ex;
    assert(la != 0 || lb != 0);
    assert(la * la + lb * lb >= 1 && 0 <= la * la <= 0x1000_0000_0000_0000 && 0 <= lb * lb
        <= 0x1000_0000_0000_0000) by (nonlinear_arith)
        requires
            la != 0 || lb != 0,
            -1073741824 <= la <= 1073741824,
            -1073741824 <= lb <= 1073741824,
    ;
    assert(-0x0800_0000_0000_0000 <= sy * (ex - sx) <= 0x0800_0000_0000_0000
        && -0x0800_0000_0000_0000 <= sx * (ey - sy) <= 0x0800_0000_0000_0000
        && -0x0800_0000_0000_0000 <= la * px <= 0x0800_0000_0000_0000 && -0x0800_0000_0000_0000
        <= lb * py <= 0x0800_0000_0000_0000) by (nonlinear_arith)
        requires
            -1073741824 <= la <= 1073741824,
            -1073741824 <= lb <= 1073741824,
            -536870912 <= sx <= 536870912,
            -536870912 <= sy <= 536870912,
            -536870912 <= px <= 536870912,
            -536870912 <= py <= 536870912,
            -1073741824 <= ex - sx <= 1073741824,
            -1073741824 <= ey - sy <= 1073741824,
    ;
}

/// The smallest-magnitude signed distance among the polygon's first `k`
/// points' consecutive segments, each negated so that the inside of a loop
/// wound counter-clockwise as drawn on screen (y down) is negative.
pub open spec fn spec_sdf_polygon_upto(p: WorldPosition, polygon: Seq<WorldPosition>, k: int) -> int
    decreases k,
{
    if k <= 1 {
        i64::MAX as int
    } else {
        min_abs(
            spec_sdf_polygon_upto(p, polygon, k - 1),
            -spec_sdf_segment(p, polygon[k - 2], polygon[k - 1]),
        )
    }
}

/// The signed fixed-point distance from a point to a polygon: negative
/// inside, positive outside, for points wound counter-clockwise as drawn on
/// screen (y down) — the winding the tracer emits for outer boundaries; a
/// loop wound the other way is inside-out. The last point is connected back
/// to the first, so the loop may be supplied either closed (first point
/// repeated) or open.
pub open spec fn spec_sdf_polygon(p: WorldPosition, polygon: Seq<WorldPosition>) -> int {
    if polygon.len() == 0 {
        i64::MAX as int
    } else {
        min_abs(
            spec_sdf_polygon_upto(p, polygon, polygon.len() as int),
            -spec_sdf_segment(p, polygon.last(), polygon[0]),
        )
    }
}

/// Whether every point of a polygon lies within the coordinate range of the
/// distance functions.
pub open spec fn polygon_in_range(polygon: Seq<WorldPosition>) -> bool {
    forall|i: int| 0 <= i < polygon.len() ==> in_range(#[trigger] polygon[i])
}

/// The signed magnitude comparison the minimum-distance folds use.
fn smaller_abs(d: i64, best: i64) -> (r: bool)
    requires
        i64::MIN < d,
        i64::MIN < best,
    ensures
        r == (vstd::math::abs(d as int) < vstd::math::abs(best as int)),
{
    let da = if d < 0 {
        -d
    } else {
        d
    };
    let ba = if best < 0 {
        -best
    } else {
        best
    };
    da < ba
}

/// Function returning the signed distance to a polygon, negative inside,
/// positive outside
///
/// The polygon points have to be wound counter-clockwise as drawn on screen
/// (y down) or it will be inside-out; the last point is implicitly
/// connected back to the first
pub fn sdf_polygon(tested_point: &WorldPosition, polygon: &Vec<WorldPosition>) -> (r: i64)
    requires
        polygon@.len() >= 1,
        in_range(*tested_point),
        polygon_in_range(polygon@),
    ensures
        r == spec_sdf_polygon(*tested_point, polygon@),
        i64::MIN < r,
{
    let mut last: WorldPosition = polygon[0];
    let mut best: i64 = i64::MAX;
    let mut i: usize = 1;
    while i < polygon.len()
        invariant
            1 <= i <= polygon@.len(),
            in_range(*tested_point),
            polygon_in_range(polygon@),
            last == polygon@[i - 1],
            best == spec_sdf_polygon_upto(*tested_point, polygon@, i as int),
            i64::MIN < best,
        decreases polygon@.len() - i,
    {
        let point = polygon[i];
        let d = -sdf_segment(tested_point, &last, &point);
        if smaller_abs(d, best) {
            best = d;
        }
        last = point;
        i += 1;
    }
    let d = -sdf_segment(tested_point, &last, &polygon[0]);
    if smaller_abs(d, best) {
        best = d;
    }
    best
}

/// The smallest-magnitude signed distance among the first `k` polygons.
pub open spec fn spec_sdf_multi_upto(
    p: WorldPosition,
    polygons: Seq<Seq<WorldPosition>>,
    k: int,
) -> int
    decreases k,
{
    if k <= 0 {
        i64::MAX as int
    } else {
        min_abs(spec_sdf_multi_upto(p, polygons, k - 1), spec_sdf_polygon(p, polygons[k - 1]))
    }
}

/// The signed fixed-point distance from a point to a group of polygons: the
/// smallest-magnitude distance among them, so an inside-out (clockwise as
/// drawn) polygon carves a hole out of the counter-clockwise one that
/// surrounds it.
pub open spec fn spec_sdf_multiple_polygons(
    p: WorldPosition,
    polygons: Seq<Seq<WorldPosition>>,
) -> int {
    spec_sdf_multi_upto(p, polygons, polygons.len() as int)
}

/// Whether a group of polygons is fit for the distance functions: none
/// empty, every point within coordinate range.
pub open spec fn polygons_in_range(polygons: Seq<Seq<WorldPosition>>) -> bool {
    forall|i: int|
        0 <= i < polygons.len() ==> (#[trigger] polygons[i]).len() >= 1 && polygon_in_range(
            polygons[i],
        )
}

/// The per-polygon point sequences of a group of polygons.
pub open spec fn polys_view(polygons: Seq<Vec<WorldPosition>>) -> Seq<Seq<WorldPosition>> {
    Seq::new(polygons.len(), |i: int| polygons[i]@)
}

/// Function returning the signed distance to a group of polygons, negative
/// inside, positive outside, each wound counter-clockwise as drawn on
/// screen (y down)
///
/// An inverse polygon will be rendered as a hole
pub fn sdf_multiple_polygons(tested_point: &WorldPosition, polygons: &Vec<Vec<WorldPosition>>) -> (r:
    i64)
    requires
        in_range(*tested_point),
        polygons_in_range(polys_view(polygons@)),
    ensures
        r == spec_sdf_multiple_polygons(*tested_point, polys_view(polygons@)),
        i64::MIN < r,
{
    let mut best: i64 = i64::MAX;
    let mut i: usize = 0;
    while i < polygons.len()
        invariant
            0 <= i <= polygons@.len(),
            in_range(*tested_point),
            polygons_in_range(polys_view(polygons@)),
            best == spec_sdf_multi_upto(*tested_point, polys_view(polygons@), i as int),
            i64::MIN < best,
        decreases polygons@.len() - i,
    {
        proof {
            assert(polys_view(polygons@)[i as int] == polygons@[i as int]@);
        }
        let d = sdf_polygon(tested_point, &polygons[i]);
        if smaller_abs(d, best) {
            best = d;
        }
        i += 1;
    }
    best
}

/// Represent the different sides of a square
#[derive(Debug, Clone, Copy, PartialEq, Eq, Structural)]
pub enum Side {
    Up,
    Right,
    Down,
    Left,
}

impl Side {
    /// The unit offset this side points towards (screen coordinates, y down).
    pub open spec fn spec_dir(&self) -> (i32, i32) {
        match self {
            Self::Up => (0i32, -1i32),
            Self::Right => (1i32, 0i32),
            Self::Down => (0i32, 1i32),
            Self::Left => (-1i32, 0i32),
        }
    }

    #[verifier::when_used_as_spec(spec_dir)]
    pub fn dir(&self) -> (r: (i32, i32))
        ensures
            r == self.spec_dir(),
    {
        match self {
            Self::Up => (0i32, -1i32),
            Self::Right => (1i32, 0i32),
            Self::Down => (0i32, 1i32),
            Self::Left => (-1i32, 0i32),
        }
    }

    pub fn from_dir(dir: (i32, i32)) -> (r: Result<Self, ()>)
        ensures
            r matches Ok(s) ==> s.spec_dir() == dir,
            r is Err <==> (dir != (0i32, -1i32) && dir != (1i32, 0i32) && dir != (0i32, 1i32)
                && dir != (-1i32, 0i32)),
    {
        match dir {
            (0i32, -1i32) => Ok(Self::Up),
            (1i32, 0i32) => Ok(Self::Right),
            (0i32, 1i32) => Ok(Self::Down),
            (-1i32, 0i32) => Ok(Self::Left),
            _ => Err(()),
        }
    }

    /// The side a quarter turn clockwise from this one.
    pub open spec fn spec_turn_right(&self) -> Side {
        match self {
            Self::Up => Self::Right,
            Self::Right => Self::Down,
            Self::Down => Self::Left,
            Self::Left => Self::Up,
        }
    }

    #[verifier::when_used_as_spec(spec_turn_right)]
    pub fn turn_right(&self) -> (r: Self)
        ensures
            r == self.spec_turn_right(),
    {
        match self {
            Self::Up => Self::Right,
            Self::Right => Self::Down,
            Self::Down => Self::Left,
            Self::Left => Self::Up,
        }
    }

    /// The side a quarter turn counter-clockwise from this one.
    pub open spec fn spec_turn_left(&self) -> Side {
        match self {
            Self::Right => Self::Up,
            Self::Down => Self::Right,
            Self::Left => Self::Down,
            Self::Up => Self::Left,
        }
    }

    #[verifier::when_used_as_spec(spec_turn_left)]
    pub fn turn_left(&self) -> (r: Self)
        ensures
            r == self.spec_turn_left(),
    {
        match self {
            Self::Right => Self::Up,
            Self::Down => Self::Right,
            Self::Left => Self::Down,
            Self::Up => Self::Left,
        }
    }

    /// All four sides, in the fixed inspection order: up, right, down, left.
    pub fn iter() -> (r: [Side; 4])
        ensures
            r@ == seq![Side::Up, Side::Right, Side::Down, Side::Left],
    {
        let r = [Side::Up, Side::Right, Side::Down, Side::Left];
        proof {
            assert(r@ =~= seq![Side::Up, Side::Right, Side::Down, Side::Left]);
        }
        r
    }

    /// The four unit offsets, in the same fixed order as `iter`.
    pub fn iter_dir() -> (r: [(i32, i32); 4])
        ensures
            r@ == seq![(0i32, -1i32), (1i32, 0i32), (0i32, 1i32), (-1i32, 0i32)],
    {
        let r = [(0i32, -1i32), (1i32, 0i32), (0i32, 1i32), (-1i32, 0i32)];
        proof {
            assert(r@ =~= seq![(0i32, -1i32), (1i32, 0i32), (0i32, 1i32), (-1i32, 0i32)]);
        }
        r
    }
}

/// Same as a 'Side' but also include diagonals
#[derive(Debug, Clone, Copy, PartialEq, Eq, Structural)]
pub enum Directions {
    Up,
    UpRight,
    Right,
    DownRight,
    Down,
    Left,
    DownLeft,
    UpLeft,
}

impl Directions {
    /// The offset this direction points towards (screen coordinates, y down).
    pub open spec fn spec_dir(&self) -> (i32, i32) {
        match self {
            Self::Up => (0i32, -1i32),
            Self::UpRight => (1i32, -1i32),
            Self::Right => (1i32, 0i32),
            Self::DownRight => (1i32, 1i32),
            Self::Down => (0i32, 1i32),
            Self::Left => (-1i32, 0i32),
            Self::DownLeft => (-1i32, 1i32),
            Self::UpLeft => (-1i32, -1i32),
        }
    }

    #[verifier::when_used_as_spec(spec_dir)]
    pub fn dir(&self) -> (r: (i32, i32))
        ensures
            r == self.spec_dir(),
    {
        match self {
            Self::Up => (0i32, -1i32),
            Self::UpRight => (1i32, -1i32),
            Self::Right => (1i32, 0i32),
            Self::DownRight => (1i32, 1i32),
            Self::Down => (0i32, 1i32),
            Self::Left => (-1i32, 0i32),
            Self::DownLeft => (-1i32, 1i32),
            Self::UpLeft => (-1i32, -1i32),
        }
    }

    pub fn from_dir(dir: (i32, i32)) -> (r: Result<Self, ()>)
        ensures
            r matches Ok(d) ==> d.spec_dir() == dir,
            r is Err <==> (dir.0 < -1 || dir.0 > 1 || dir.1 < -1 || dir.1 > 1 || dir == (
                0i32,
                0i32,
            )),
    {
        match dir {
            (0i32, -1i32) => Ok(Self::Up),
            (1i32, -1i32) => Ok(Self::UpRight),
            (1i32, 0i32) => Ok(Self::Right),
            (1i32, 1i32) => Ok(Self::DownRight),
            (0i32, 1i32) => Ok(Self::Down),
            (-1i32, 0i32) => Ok(Self::Left),
            (-1i32, 1i32) => Ok(Self::DownLeft),
            (-1i32, -1i32) => Ok(Self::UpLeft),
            _ => Err(()),
        }
    }

    /// The direction an eighth turn clockwise from this one.
    pub open spec fn spec_turn_right(&self) -> Directions {
        match self {
            Self::Up => Self::UpRight,
            Self::UpRight => Self::Right,
            Self::Right => Self::DownRight,
            Self::DownRight => Self::Down,
            Self::Down => Self::Left,
            Self::Left => Self::DownLeft,
            Self::DownLeft => Self::UpLeft,
            Self::UpLeft => Self::Up,
        }
    }

    #[verifier::when_used_as_spec(spec_turn_right)]
    pub fn turn_right(&self) -> (r: Self)
        ensures
            r == self.spec_turn_right(),
    {
        match self {
            Self::Up => Self::UpRight,
            Self::UpRight => Self::Right,
            Self::Right => Self::DownRight,
            Self::DownRight => Self::Down,
            Self::Down => Self::Left,
            Self::Left => Self::DownLeft,
            Self::DownLeft => Self::UpLeft,
            Self::UpLeft => Self::Up,
        }
    }

    /// The direction an eighth turn counter-clockwise from this one.
    pub open spec fn spec_turn_left(&self) -> Directions {
        match self {
            Self::UpRight => Self::Up,
            Self::Right => Self::UpRight,
            Self::DownRight => Self::Right,
            Self::Down => Self::DownRight,
            Self::Left => Self::Down,
            Self::DownLeft => Self::Left,
            Self::UpLeft => Self::DownLeft,
            Self::Up => Self::UpLeft,
        }
    }

    #[verifier::when_used_as_spec(spec_turn_left)]
    pub fn turn_left(&self) -> (r: Self)
        ensures
            r == self.spec_turn_left(),
    {
        match self {
            Self::UpRight => Self::Up,
            Self::Right => Self::UpRight,
            Self::DownRight => Self::Right,
            Self::Down => Self::DownRight,
            Self::Left => Self::Down,
            Self::DownLeft => Self::Left,
            Self::UpLeft => Self::DownLeft,
            Self::Up => Self::UpLeft,
        }
    }

    /// All eight directions, in the fixed inspection order.
    pub fn iter() -> (r: [Directions; 8])
        ensures
            r@ == seq![
                Directions::Up,
                Directions::UpRight,
                Directions::Right,
                Directions::DownRight,
                Directions::Down,
                Directions::Left,
                Directions::DownLeft,
                Directions::UpLeft,
            ],
    {
        let r = [
            Directions::Up,
            Directions::UpRight,
            Directions::Right,
            Directions::DownRight,
            Directions::Down,
            Directions::Left,
            Directions::DownLeft,
            Directions::UpLeft,
        ];
        proof {
            assert(r@ =~= seq![
                Directions::Up,
                Directions::UpRight,
                Directions::Right,
                Directions::DownRight,
                Directions::Down,
                Directions::Left,
                Directions::DownLeft,
                Directions::UpLeft,
            ]);
        }
        r
    }

    /// The eight unit offsets, in the same fixed order as `iter`.
    pub fn iter_dir() -> (r: [(i32, i32); 8])
        ensures
            r@ == seq![
                (0i32, -1i32),
                (1i32, -1i32),
                (1i32, 0i32),
                (1i32, 1i32),
                (0i32, 1i32),
                (-1i32, 0i32),
                (-1i32, 1i32),
                (-1i32, -1i32),
            ],
    {
        let r = [
            (0i32, -1i32),
            (1i32, -1i32),
            (1i32, 0i32),
            (1i32, 1i32),
            (0i32, 1i32),
            (-1i32, 0i32),
            (-1i32, 1i32),
            (-1i32, -1i32),
        ];
        proof {
            assert(r@ =~= seq![
                (0i32, -1i32),
                (1i32, -1i32),
                (1i32, 0i32),
                (1i32, 1i32),
                (0i32, 1i32),
                (-1i32, 0i32),
                (-1i32, 1i32),
                (-1i32, -1i32),
            ]);
        }
        r
    }
}

} // verus!
