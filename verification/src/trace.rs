use vstd::prelude::*;
use vstd::multiset::Multiset;

use crate::maths::{Cell, Side, WorldPosition, SCALE};
use crate::map::{GameMap, Tile};

verus! {

/// Largest cell coordinate magnitude the tracer accepts: boundary midpoints
/// of cells within this bound stay inside the distance functions' coordinate
/// range.
pub const CELL_BOUND: i32 = 2000000;

/// Whether every populated cell of the map lies within the tracer's bounds.
pub open spec fn grid_in_range(g: GameMap) -> bool {
    forall|i: int|
        0 <= i < g.entries().len() ==> {
            let c = (#[trigger] g.entries()[i]).0;
            -CELL_BOUND <= c.0 <= CELL_BOUND && -CELL_BOUND <= c.1 <= CELL_BOUND
        }
}

/// The neighbour of a cell one step towards a side.
pub open spec fn spec_move_cell(cell: Cell, dir: Side) -> Cell {
    Cell((cell.0 + dir.spec_dir().0) as i32, (cell.1 + dir.spec_dir().1) as i32)
}

/// The neighbour of a cell one step towards a side.
pub fn move_cell(cell: Cell, dir: Side) -> (r: Cell)
    requires
        -CELL_BOUND - 1 <= cell.0 <= CELL_BOUND + 1,
        -CELL_BOUND - 1 <= cell.1 <= CELL_BOUND + 1,
    ensures
        r == spec_move_cell(cell, dir),
{
    let d = dir.dir();
    Cell(cell.0 + d.0, cell.1 + d.1)
}

/// Whether the directed pair is a boundary edge of the grid: two adjacent
/// cells whose tiles differ, the inside one populated (not the default).
pub open spec fn is_boundary_edge(g: GameMap, e: (Cell, Cell)) -> bool {
    &&& exists|s: Side| e.1 == spec_move_cell(e.0, s)
    &&& g.spec_tile_at(e.0) != Tile::Empty
    &&& g.spec_tile_at(e.1) != g.spec_tile_at(e.0)
    &&& -CELL_BOUND <= e.0.0 <= CELL_BOUND
    &&& -CELL_BOUND <= e.0.1 <= CELL_BOUND
}

/// The fixed total order on boundary edges: ascending by inside cell, then
/// by outside cell, coordinates compared x first.
pub open spec fn edge_lt(a: (Cell, Cell), b: (Cell, Cell)) -> bool {
    if a.0.0 != b.0.0 {
        a.0.0 < b.0.0
    } else if a.0.1 != b.0.1 {
        a.0.1 < b.0.1
    } else if a.1.0 != b.1.0 {
        a.1.0 < b.1.0
    } else {
        a.1.1 < b.1.1
    }
}

/// Whether the edges of a list are strictly ascending in `edge_lt`.
pub open spec fn strictly_sorted_edges(s: Seq<(Cell, Cell)>) -> bool {
    forall|i: int, j: int| 0 <= i < j < s.len() ==> edge_lt(#[trigger] s[i], #[trigger] s[j])
}

fn edge_lt_exec(a: &(Cell, Cell), b: &(Cell, Cell)) -> (r: bool)
    ensures
        r == edge_lt(*a, *b),
{
    if a.0.0 != b.0.0 {
        a.0.0 < b.0.0
    } else if a.0.1 != b.0.1 {
        a.0.1 < b.0.1
    } else if a.1.0 != b.1.0 {
        a.1.0 < b.1.0
    } else {
        a.1.1 < b.1.1
    }
}

/// `edge_lt` is a strict total order.
proof fn lemma_edge_lt_order(a: (Cell, Cell), b: (Cell, Cell), c: (Cell, Cell))
    ensures
        !(edge_lt(a, b) && edge_lt(b, a)),
        edge_lt(a, b) || edge_lt(b, a) || a == b,
        edge_lt(a, b) && edge_lt(b, c) ==> edge_lt(a, c),
{
}

/// Two strictly sorted edge lists holding the same edges are the same list.
pub proof fn lemma_sorted_edges_unique(s1: Seq<(Cell, Cell)>, s2: Seq<(Cell, Cell)>)
    requires
        strictly_sorted_edges(s1),
        strictly_sorted_edges(s2),
        forall|e: (Cell, Cell)| s1.contains(e) <==> s2.contains(e),
    ensures
        s1 == s2,
    decreases s1.len(),
{
    if s1.len() == 0 {
        if s2.len() > 0 {
            assert(s2.contains(s2[0]));
            assert(false);
        }
        assert(s1 =~= s2);
    } else {
        assert(s1.contains(s1[0]));
        assert(s2.contains(s1[0]));
        if s2.len() == 0 {
            assert(false);
        }
        // the heads are both the unique minimum
        let i = choose|i: int| 0 <= i < s2.len() && s2[i] == s1[0];
        assert(s2.contains(s2[0]));
        let j = choose|j: int| 0 <= j < s1.len() && s1[j] == s2[0];
        lemma_edge_lt_order(s1[0], s2[0], s1[0]);
        if s1[0] != s2[0] {
            if edge_lt(s1[0], s2[0]) {
                // s1[0] sits in s2 at index i, and s2 is sorted, so s2[0] <= s1[0]
                if i > 0 {
                    assert(edge_lt(s2[0], s2[i]));
                }
                lemma_edge_lt_order(s1[0], s2[0], s2[i]);
                assert(false);
            } else {
                if j > 0 {
                    assert(edge_lt(s1[0], s1[j]));
                }
                lemma_edge_lt_order(s2[0], s1[0], s1[j]);
                assert(false);
            }
        }
        let t1 = s1.drop_first();
        let t2 = s2.drop_first();
        assert forall|e: (Cell, Cell)| t1.contains(e) <==> t2.contains(e) by {
            lemma_tail_membership(s1, e);
            lemma_tail_membership(s2, e);
            assert(s1[0] == s2[0]);
        }
        assert(strictly_sorted_edges(t1)) by {
            assert(forall|i: int, j: int|
                0 <= i < j < t1.len() ==> t1[i] == s1[i + 1] && t1[j] == s1[j + 1]);
        }
        assert(strictly_sorted_edges(t2)) by {
            assert(forall|i: int, j: int|
                0 <= i < j < t2.len() ==> t2[i] == s2[i + 1] && t2[j] == s2[j + 1]);
        }
        lemma_sorted_edges_unique(t1, t2);
        assert(s1 =~= s2) by {
            assert(forall|k: int| 1 <= k < s1.len() ==> s1[k] == t1[k - 1] && s2[k] == t2[k - 1]);
        }
    }
}

/// In a strictly sorted list the head is strictly below the tail, so an edge
/// is in the tail exactly when it is in the list and is not the head.
proof fn lemma_tail_membership(s: Seq<(Cell, Cell)>, e: (Cell, Cell))
    requires
        strictly_sorted_edges(s),
        s.len() > 0,
    ensures
        s.drop_first().contains(e) <==> (s.contains(e) && e != s[0]),
{
    let t = s.drop_first();
    if t.contains(e) {
        let i = choose|i: int| 0 <= i < t.len() && t[i] == e;
        assert(s[i + 1] == e);
        assert(edge_lt(s[0], s[i + 1]));
        lemma_edge_lt_order(s[0], e, e);
    }
    if s.contains(e) && e != s[0] {
        let i = choose|i: int| 0 <= i < s.len() && s[i] == e;
        assert(i >= 1);
        assert(t[i - 1] == e);
    }
}

/// Whether a list is the canonical edge list of a grid: strictly ascending
/// and holding exactly the grid's boundary edges.
pub open spec fn is_canonical_edges(g: GameMap, es: Seq<(Cell, Cell)>) -> bool {
    strictly_sorted_edges(es) && (forall|e: (Cell, Cell)|
        #[trigger] es.contains(e) <==> is_boundary_edge(g, e))
}

/// The canonical edge list of a grid; `lemma_sorted_edges_unique` makes it
/// a function of the grid alone.
pub open spec fn spec_sorted_edges(g: GameMap) -> Seq<(Cell, Cell)> {
    choose|es: Seq<(Cell, Cell)>| is_canonical_edges(g, es)
}

/// Insert an edge into its place in a sorted list of distinct edges.
fn insert_sorted(edges: &mut Vec<(Cell, Cell)>, e: (Cell, Cell))
    requires
        strictly_sorted_edges(old(edges)@),
        !old(edges)@.contains(e),
    ensures
        strictly_sorted_edges(final(edges)@),
        forall|x: (Cell, Cell)|
            #[trigger] final(edges)@.contains(x) <==> (old(edges)@.contains(x) || x == e),
        final(edges)@.len() == old(edges)@.len() + 1,
{
    let ghost s_old = edges@;
    let mut i: usize = 0;
    while i < edges.len()
        invariant_except_break
            edges@ == s_old,
            i <= edges@.len(),
            forall|k: int| 0 <= k < i ==> edge_lt(#[trigger] edges@[k], e),
        ensures
            edges@ == s_old,
            i <= edges@.len(),
            forall|k: int| 0 <= k < i ==> edge_lt(#[trigger] edges@[k], e),
            i < edges@.len() ==> !edge_lt(edges@[i as int], e),
        decreases edges@.len() - i,
    {
        if !edge_lt_exec(&edges[i], &e) {
            break;
        }
        i += 1;
    }
    proof {
        if i < edges@.len() {
            assert(!edge_lt(edges@[i as int], e));
            lemma_edge_lt_order(edges@[i as int], e, e);
            assert(edges@[i as int] != e) by {
                assert(!s_old.contains(e));
                assert(s_old.contains(s_old[i as int]));
            }
            assert(edge_lt(e, edges@[i as int]));
        }
    }
    edges.insert(i, e);
    proof {
        let s_new = edges@;
        assert forall|a: int, b: int| 0 <= a < b < s_new.len() implies edge_lt(
            s_new[a],
            s_new[b],
        ) by {
            let ia = if a < i { a } else { a - 1 };
            let ib = if b < i { b } else { b - 1 };
            if a == i {
                // s_new[a] == e, b > i so s_new[b] == s_old[b-1], with i <= b-1
                if i < s_old.len() {
                    if b - 1 > i {
                        assert(edge_lt(s_old[i as int], s_old[b - 1]));
                        lemma_edge_lt_order(e, s_old[i as int], s_old[b - 1]);
                    }
                }
            } else if b == i {
                assert(edge_lt(s_old[a], e));
            } else if a < i && b > i {
                if b - 1 == a {
                    assert(edge_lt(s_old[a], e));
                    assert(edge_lt(e, s_old[b - 1]) ==> edge_lt(s_old[a], s_old[b - 1]));
                    if i < s_old.len() {
                        lemma_edge_lt_order(s_old[a], e, s_old[b - 1]);
                    }
                } else {
                    assert(edge_lt(s_old[ia], s_old[ib]));
                }
            } else {
                assert(edge_lt(s_old[ia], s_old[ib]));
            }
        }
        assert forall|x: (Cell, Cell)| #[trigger]
            s_new.contains(x) <==> (s_old.contains(x) || x == e) by {
            if s_new.contains(x) {
                let k = choose|k: int| 0 <= k < s_new.len() && s_new[k] == x;
                if k < i {
                    assert(s_old[k] == x);
                } else if k > i {
                    assert(s_old[k - 1] == x);
                }
            }
            if s_old.contains(x) {
                let k = choose|k: int| 0 <= k < s_old.len() && s_old[k] == x;
                if k < i {
                    assert(s_new[k] == x);
                } else {
                    assert(s_new[k + 1] == x);
                }
            }
            if x == e {
                assert(s_new[i as int] == x);
            }
        }
    }
}

/// Collect the grid's boundary edges: for every populated, non-empty cell,
/// each of its four axis neighbours of a differing tile contributes one
/// directed edge. The result is the canonical ascending edge list.
pub fn boundary_edges(map: &GameMap) -> (r: Vec<(Cell, Cell)>)
    requires
        map.wf(),
        grid_in_range(*map),
    ensures
        strictly_sorted_edges(r@),
        forall|e: (Cell, Cell)| #[trigger] r@.contains(e) <==> is_boundary_edge(*map, e),
        r@ == spec_sorted_edges(*map),
{
    let tiles = map.iter_tiles();
    let mut edges: Vec<(Cell, Cell)> = Vec::new();
    let mut i: usize = 0;
    while i < tiles.len()
        invariant
            map.wf(),
            grid_in_range(*map),
            tiles@.len() == map.entries().len(),
            forall|k: int|
                0 <= k < tiles@.len() ==> #[trigger] tiles@[k] == (
                    (map.entries()[k].0.0, map.entries()[k].0.1),
                    map.entries()[k].1,
                ),
            i <= tiles@.len(),
            strictly_sorted_edges(edges@),
            forall|e: (Cell, Cell)| #[trigger]
                edges@.contains(e) <==> (is_boundary_edge(*map, e) && exists|k: int|
                    0 <= k < i && (#[trigger] map.entries()[k]).0 == e.0),
        decreases tiles@.len() - i,
    {
        let (pos, _) = tiles[i];
        let cell = Cell(pos.0, pos.1);
        proof {
            assert(map.entries()[i as int].0 == cell);
            crate::map::lemma_terrain_map_at(map.entries(), i as int);
        }
        let current = map.get_tile(cell);
        if !matches!(current, Tile::Empty) {
            let dirs = Side::iter();
            let mut s: usize = 0;
            while s < 4
                invariant
                    map.wf(),
                    grid_in_range(*map),
                    0 <= i < map.entries().len(),
                    map.entries()[i as int].0 == cell,
                    current == map.spec_tile_at(cell),
                    current != Tile::Empty,
                    dirs@ == seq![Side::Up, Side::Right, Side::Down, Side::Left],
                    s <= 4,
                    strictly_sorted_edges(edges@),
                    forall|e: (Cell, Cell)| #[trigger]
                        edges@.contains(e) <==> (is_boundary_edge(*map, e) && ((exists|k: int|
                            0 <= k < i && (#[trigger] map.entries()[k]).0 == e.0) || (e.0 == cell
                            && exists|t: int|
                            0 <= t < s && e.1 == spec_move_cell(cell, #[trigger] dirs@[t])))),
                decreases 4 - s,
            {
                let neighbor = move_cell(cell, dirs[s]);
                let other = map.get_tile(neighbor);
                if other != current {
                    let e = (cell, neighbor);
                    proof {
                        assert(is_boundary_edge(*map, e)) by {
                            assert(e.1 == spec_move_cell(e.0, dirs@[s as int]));
                        }
                        assert(!edges@.contains(e)) by {
                            if edges@.contains(e) {
                                if exists|k: int|
                                    0 <= k < i && (#[trigger] map.entries()[k]).0 == e.0 {
                                    let k = choose|k: int|
                                        0 <= k < i && (#[trigger] map.entries()[k]).0 == e.0;
                                    assert(map.entries()[i as int].0 == e.0);
                                    assert(false);
                                } else {
                                    let t = choose|t: int|
                                        0 <= t < s && e.1 == spec_move_cell(
                                            cell,
                                            #[trigger] dirs@[t],
                                        );
                                    assert(-CELL_BOUND <= cell.0 <= CELL_BOUND);
                                    assert(-CELL_BOUND <= cell.1 <= CELL_BOUND);
                                    assert(e.1 == spec_move_cell(cell, dirs@[s as int]));
                                    assert(spec_move_cell(cell, dirs@[t]) != spec_move_cell(
                                        cell,
                                        dirs@[s as int],
                                    ));
                                    assert(false);
                                }
                            }
                        }
                    }
                    insert_sorted(&mut edges, e);
                }
                s += 1;
            }
        }
        i += 1;
    }
    proof {
        assert forall|e: (Cell, Cell)| #[trigger]
            edges@.contains(e) <==> is_boundary_edge(*map, e) by {
            if is_boundary_edge(*map, e) {
                crate::map::lemma_terrain_map_domain(map.entries(), e.0);
                assert(map.contents().contains_key(e.0)) by {
                    if !map.contents().contains_key(e.0) {
                        assert(map.spec_tile_at(e.0) == map.spec_default_tile());
                    }
                }
            }
        }
        assert(is_canonical_edges(*map, edges@));
        assert(spec_sorted_edges(*map) == edges@) by {
            assert(exists|es: Seq<(Cell, Cell)>| is_canonical_edges(*map, es));
            lemma_sorted_edges_unique(edges@, spec_sorted_edges(*map));
        }
    }
    edges
}

/// A closed boundary loop: the traced (inside, outside) cell pairs, one per
/// consumed boundary edge, and the midpoint of each pair's cell centres.
/// The last pair connects back to the first; no point is repeated. Outer
/// boundaries come out wound counter-clockwise as drawn on screen (y down)
/// and enclosed holes clockwise, which is what gives the distance field its
/// negative-inside sign and makes holes subtract.
pub struct Loop {
    pub points: Vec<WorldPosition>,
    pub pairs: Vec<(Cell, Cell)>,
}

/// All boundary loops of a grid, grouped by the tile kind they enclose, in
/// the order the tracer met them.
pub struct LoopSet {
    pub entries: Vec<(Tile, Vec<Loop>)>,
}

impl LoopSet {
    /// The per-tile point polygons the rasterizer consumes.
    pub open spec fn points_model(&self) -> Seq<(Tile, Seq<Seq<WorldPosition>>)> {
        Seq::new(
            self.entries@.len(),
            |i: int|
                (
                    self.entries@[i].0,
                    Seq::new(self.entries@[i].1@.len(), |j: int| self.entries@[i].1@[j].points@),
                ),
        )
    }

    /// What the rasterizer relies on: only renderable tiles, every entry
    /// holding at least one loop, every loop at least three in-range points.
    pub open spec fn wf(&self) -> bool {
        forall|i: int|
            0 <= i < self.entries@.len() ==> {
                let en = #[trigger] self.entries@[i];
                &&& en.0 != Tile::Empty
                &&& en.1@.len() >= 1
                &&& forall|j: int|
                    0 <= j < en.1@.len() ==> (#[trigger] en.1@[j]).points@.len() >= 3 && (forall|
                        k: int,
                    |
                        0 <= k < en.1@[j].points@.len() ==> crate::maths::in_range(
                            #[trigger] en.1@[j].points@[k],
                        ))
            }
    }
}

/// A structural fault met while tracing: the boundary-edge graph of a
/// well-formed grid always decomposes into closed loops, so any of these
/// marks an internal invariant violation, not a normal error.
#[derive(Debug, Clone, Copy, PartialEq, Eq, Structural)]
pub enum TraceError {
    /// A loop start's outside cell is not an axis neighbour of its inside cell.
    InvalidDirection,
    /// The walk crossed a boundary edge that was already consumed or never found.
    MissingEdge,
    /// A walk closed after fewer than three boundary edges.
    ShortLoop,
    /// A walk failed to close within the defensive iteration cap.
    StepLimit,
}

/// The midpoint of the centres of an edge's two cells.
pub open spec fn spec_midpoint(e: (Cell, Cell)) -> WorldPosition {
    WorldPosition(
        (((SCALE as int) / 2) * (e.0.0 + e.1.0 + 1)) as i64,
        (((SCALE as int) / 2) * (e.0.1 + e.1.1 + 1)) as i64,
    )
}

/// One step of right-hand wall following: turn right and advance when the
/// cell on the right holds the traced tile, else advance straight if
/// possible, else turn left in place.
pub open spec fn spec_step(g: GameMap, tile: Tile, inside: Cell, dir: Side) -> (Cell, Side) {
    let right = dir.spec_turn_right();
    if g.spec_tile_at(spec_move_cell(inside, right)) == tile {
        (spec_move_cell(inside, right), right)
    } else if g.spec_tile_at(spec_move_cell(inside, dir)) == tile {
        (spec_move_cell(inside, dir), dir)
    } else {
        (inside, dir.spec_turn_left())
    }
}

/// The side whose unit offset matches, if any.
pub open spec fn spec_side_of_offset(dx: int, dy: int) -> Option<Side> {
    if dx == 0 && dy == -1 {
        Some(Side::Up)
    } else if dx == 1 && dy == 0 {
        Some(Side::Right)
    } else if dx == 0 && dy == 1 {
        Some(Side::Down)
    } else if dx == -1 && dy == 0 {
        Some(Side::Left)
    } else {
        None
    }
}

/// The walk of one loop from just after its starting edge: the boundary
/// edges consumed until the walk returns to the start, and what is left of
/// the working edge list. `None` marks a structural fault (an edge missing
/// from the working list, or the iteration cap `fuel` running out).
pub open spec fn spec_walk(
    g: GameMap,
    tile: Tile,
    first: (Cell, Cell),
    inside: Cell,
    dir: Side,
    remaining: Seq<(Cell, Cell)>,
    fuel: nat,
) -> Option<(Seq<(Cell, Cell)>, Seq<(Cell, Cell)>)>
    decreases fuel,
{
    if fuel == 0 {
        None
    } else {
        let stepped = spec_step(g, tile, inside, dir);
        let outside = spec_move_cell(stepped.0, stepped.1.spec_turn_right());
        let e = (stepped.0, outside);
        if e == first {
            Some((Seq::empty(), remaining))
        } else if g.spec_tile_at(outside) != tile {
            if !remaining.contains(e) {
                None
            } else {
                let rem2 = remaining.remove(remaining.index_of(e));
                match spec_walk(g, tile, first, stepped.0, stepped.1, rem2, (fuel - 1) as nat) {
                    None => None,
                    Some(rest) => Some((seq![e] + rest.0, rest.1)),
                }
            }
        } else {
            spec_walk(g, tile, first, stepped.0, stepped.1, remaining, (fuel - 1) as nat)
        }
    }
}

/// What is left of a walk's working list is never longer than what it began
/// with.
pub proof fn lemma_spec_walk_shrinks(
    g: GameMap,
    tile: Tile,
    first: (Cell, Cell),
    inside: Cell,
    dir: Side,
    remaining: Seq<(Cell, Cell)>,
    fuel: nat,
)
    ensures
        spec_walk(g, tile, first, inside, dir, remaining, fuel) matches Some(r) ==> r.1.len()
            <= remaining.len(),
    decreases fuel,
{
    if fuel > 0 {
        let stepped = spec_step(g, tile, inside, dir);
        let outside = spec_move_cell(stepped.0, stepped.1.spec_turn_right());
        let e = (stepped.0, outside);
        if e == first {
        } else if g.spec_tile_at(outside) != tile {
            if remaining.contains(e) {
                let rem2 = remaining.remove(remaining.index_of(e));
                lemma_spec_walk_shrinks(g, tile, first, stepped.0, stepped.1, rem2, (fuel - 1) as nat);
            }
        } else {
            lemma_spec_walk_shrinks(g, tile, first, stepped.0, stepped.1, remaining, (fuel - 1) as nat);
        }
    }
}

/// The loops walked from a working edge list, in order: each starts at the
/// list's first edge and consumes it and every edge its walk crosses. Every
/// loop is the traced tile paired with its consumed edges, start first.
pub open spec fn spec_walk_all(g: GameMap, remaining: Seq<(Cell, Cell)>, fuel: nat) -> Option<
    Seq<(Tile, Seq<(Cell, Cell)>)>,
>
    decreases remaining.len(),
    via spec_walk_all_decreases
{
    if remaining.len() == 0 {
        Some(Seq::empty())
    } else {
        let first = remaining[0];
        let tile = g.spec_tile_at(first.0);
        match spec_side_of_offset(first.1.0 - first.0.0, first.1.1 - first.0.1) {
            None => None,
            Some(side) => {
                let dir = side.spec_turn_left();
                match spec_walk(g, tile, first, first.0, dir, remaining.drop_first(), fuel) {
                    None => None,
                    Some(walked) => {
                        let pairs = seq![first] + walked.0;
                        if pairs.len() < 3 {
                            None
                        } else {
                            match spec_walk_all(g, walked.1, fuel) {
                                None => None,
                                Some(rest) => Some(seq![(tile, pairs)] + rest),
                            }
                        }
                    },
                }
            },
        }
    }
}

#[via_fn]
proof fn spec_walk_all_decreases(g: GameMap, remaining: Seq<(Cell, Cell)>, fuel: nat) {
    if remaining.len() > 0 {
        let first = remaining[0];
        let tile = g.spec_tile_at(first.0);
        match spec_side_of_offset(first.1.0 - first.0.0, first.1.1 - first.0.1) {
            None => {},
            Some(side) => {
                let dir = side.spec_turn_left();
                lemma_spec_walk_shrinks(g, tile, first, first.0, dir, remaining.drop_first(), fuel);
            },
        }
    }
}

/// The iteration cap of each loop walk: in a well-formed grid a walk visits
/// each populated cell from at most four directions.
pub open spec fn spec_fuel(g: GameMap) -> nat {
    (4 * g.entries().len() + 4) as nat
}

/// The loops of the whole grid, traced from the canonical edge list.
pub open spec fn spec_trace(g: GameMap) -> Option<Seq<(Tile, Seq<(Cell, Cell)>)>> {
    spec_walk_all(g, spec_sorted_edges(g), spec_fuel(g))
}

/// A populated, non-empty cell lies within the tracer's bounds.
proof fn lemma_populated_cell_bounded(g: GameMap, c: Cell)
    requires
        g.wf(),
        grid_in_range(g),
        g.spec_tile_at(c) != Tile::Empty,
    ensures
        -CELL_BOUND <= c.0 <= CELL_BOUND,
        -CELL_BOUND <= c.1 <= CELL_BOUND,
{
    crate::map::lemma_terrain_map_domain(g.entries(), c);
    assert(g.contents().contains_key(c));
    let i = choose|i: int| 0 <= i < g.entries().len() && (#[trigger] g.entries()[i]).0 == c;
    assert(g.entries()[i].0 == c);
}

/// Whether two cells coincide or touch, diagonals included.
pub open spec fn cells_adjacent(a: Cell, b: Cell) -> bool {
    -1 <= a.0 - b.0 <= 1 && -1 <= a.1 - b.1 <= 1
}

/// Whether each consumed pair of a loop hands over to the next — the last
/// wrapping back to the first — between coinciding or touching inside
/// cells: the traced path has no gaps.
pub open spec fn loop_connected(pairs: Seq<(Cell, Cell)>) -> bool {
    &&& forall|i: int|
        0 <= i < pairs.len() - 1 ==> cells_adjacent((#[trigger] pairs[i]).0, pairs[i + 1].0)
    &&& pairs.len() > 0 ==> cells_adjacent(pairs[pairs.len() - 1].0, pairs[0].0)
}

/// The cells a run of forced right turns can reach from a walk state whose
/// right-hand cell holds the traced tile: turning right again and again
/// circles the walk within one step of where the run began.
pub open spec fn chain_ok(inside: Cell, dir: Side, c: Cell) -> bool {
    let d = dir.spec_dir();
    let r = dir.spec_turn_right().spec_dir();
    let rr = dir.spec_turn_right().spec_turn_right().spec_dir();
    ||| (c.0 == inside.0 + r.0 && c.1 == inside.1 + r.1)
    ||| (c.0 == inside.0 + r.0 + rr.0 && c.1 == inside.1 + r.1 + rr.1)
    ||| (c.0 == inside.0 - d.0 && c.1 == inside.1 - d.1)
    ||| c == inside
}

/// From a walk state whose right-hand cell holds the traced tile, the next
/// pair the walk reaches — consumed or closing — starts within the run's
/// reach: the forced right turns only circle in place.
proof fn lemma_walk_chain(
    g: GameMap,
    tile: Tile,
    first: (Cell, Cell),
    inside: Cell,
    dir: Side,
    remaining: Seq<(Cell, Cell)>,
    fuel: nat,
)
    requires
        g.wf(),
        grid_in_range(g),
        tile != Tile::Empty,
        g.spec_tile_at(inside) == tile,
        g.spec_tile_at(spec_move_cell(inside, dir.spec_turn_right())) == tile,
    ensures
        spec_walk(g, tile, first, inside, dir, remaining, fuel) matches Some(w) ==> chain_ok(
            inside,
            dir,
            w.0.push(first)[0].0,
        ),
    decreases fuel,
{
    if fuel > 0 {
        lemma_populated_cell_bounded(g, inside);
        let right = dir.spec_turn_right();
        let inside2 = spec_move_cell(inside, right);
        let stepped = spec_step(g, tile, inside, dir);
        assert(stepped == (inside2, right));
        lemma_populated_cell_bounded(g, inside2);
        assert(inside2.0 == inside.0 + right.spec_dir().0 && inside2.1 == inside.1
            + right.spec_dir().1);
        let outside = spec_move_cell(inside2, right.spec_turn_right());
        let e = (inside2, outside);
        if e == first {
            // the walk closes one step to the right
        } else if g.spec_tile_at(outside) != tile {
            // the walk consumes a pair starting one step to the right
        } else {
            // another forced right turn: the reachable cells are the same
            lemma_walk_chain(g, tile, first, inside2, right, remaining, (fuel - 1) as nat);
            match spec_walk(g, tile, first, inside2, right, remaining, (fuel - 1) as nat) {
                Some(w2) => {
                    let h = w2.0.push(first)[0].0;
                    assert(chain_ok(inside2, right, h) ==> chain_ok(inside, dir, h));
                },
                None => {},
            }
        }
    }
}

/// The inside cells of the pairs a walk consumes, continued by the starting
/// pair it closes on, follow each other by at most one cell in each
/// coordinate: the walk never jumps.
#[verifier::rlimit(100)]
proof fn lemma_walk_connected(
    g: GameMap,
    tile: Tile,
    first: (Cell, Cell),
    inside: Cell,
    dir: Side,
    remaining: Seq<(Cell, Cell)>,
    fuel: nat,
)
    requires
        g.wf(),
        grid_in_range(g),
        tile != Tile::Empty,
        g.spec_tile_at(inside) == tile,
    ensures
        spec_walk(g, tile, first, inside, dir, remaining, fuel) matches Some(w) ==> {
            let aug = w.0.push(first);
            &&& cells_adjacent(inside, aug[0].0)
            &&& forall|i: int|
                0 <= i < aug.len() - 1 ==> cells_adjacent((#[trigger] aug[i]).0, aug[i + 1].0)
        },
    decreases fuel,
{
    if fuel > 0 {
        lemma_populated_cell_bounded(g, inside);
        let stepped = spec_step(g, tile, inside, dir);
        let inside2 = stepped.0;
        let dir2 = stepped.1;
        assert(g.spec_tile_at(inside2) == tile);
        lemma_populated_cell_bounded(g, inside2);
        assert(cells_adjacent(inside, inside2));
        let outside = spec_move_cell(inside2, dir2.spec_turn_right());
        let e = (inside2, outside);
        if e == first {
            // aug is the single closing pair, one step away at most
        } else if g.spec_tile_at(outside) != tile {
            if remaining.contains(e) {
                let rem2 = remaining.remove(remaining.index_of(e));
                lemma_walk_connected(g, tile, first, inside2, dir2, rem2, (fuel - 1) as nat);
                match spec_walk(g, tile, first, inside2, dir2, rem2, (fuel - 1) as nat) {
                    Some(rest) => {
                        let aug_rest = rest.0.push(first);
                        let aug = (seq![e] + rest.0).push(first);
                        assert(aug =~= seq![e] + aug_rest);
                        assert(aug[0] == e);
                        assert(cells_adjacent(inside, e.0));
                        assert forall|i: int| 0 <= i < aug.len() - 1 implies cells_adjacent(
                            (#[trigger] aug[i]).0,
                            aug[i + 1].0,
                        ) by {
                            if i == 0 {
                                assert(aug[1] == aug_rest[0]);
                                assert(cells_adjacent(inside2, aug_rest[0].0));
                            } else {
                                assert(aug[i] == aug_rest[i - 1]);
                                assert(aug[i + 1] == aug_rest[i]);
                            }
                        }
                    },
                    None => {},
                }
            }
        } else {
            // no pair was consumed: the step kept the tile on its right, so
            // it was a move (a left turn in place would face the cell whose
            // differing tile prompted it), and the walk now runs a chain of
            // forced right turns
            assert(stepped != (inside, dir.spec_turn_left())) by {
                if stepped == (inside, dir.spec_turn_left()) {
                    assert(g.spec_tile_at(spec_move_cell(inside, dir)) != tile);
                    assert(dir.spec_turn_left().spec_turn_right() == dir);
                    assert(outside == spec_move_cell(inside, dir));
                }
            }
            assert(g.spec_tile_at(spec_move_cell(inside2, dir2.spec_turn_right())) == tile);
            lemma_walk_chain(g, tile, first, inside2, dir2, remaining, (fuel - 1) as nat);
            lemma_walk_connected(g, tile, first, inside2, dir2, remaining, (fuel - 1) as nat);
            match spec_walk(g, tile, first, inside2, dir2, remaining, (fuel - 1) as nat) {
                Some(w) => {
                    let h = w.0.push(first)[0].0;
                    assert(chain_ok(inside2, dir2, h));
                    assert(cells_adjacent(inside, h)) by {
                        lemma_populated_cell_bounded(g, inside);
                        lemma_populated_cell_bounded(g, inside2);
                        if stepped == (spec_move_cell(inside, dir.spec_turn_right()),
                        dir.spec_turn_right()) {
                            assert(inside2.0 == inside.0 + dir.spec_turn_right().spec_dir().0
                                && inside2.1 == inside.1 + dir.spec_turn_right().spec_dir().1);
                        } else {
                            assert(stepped == (spec_move_cell(inside, dir), dir));
                            assert(inside2.0 == inside.0 + dir.spec_dir().0 && inside2.1 == inside.1
                                + dir.spec_dir().1);
                        }
                    }
                },
                None => {},
            }
        }
    }
}

/// What a walk leaves of the working list only ever held edges the list
/// held before.
proof fn lemma_spec_walk_subset(
    g: GameMap,
    tile: Tile,
    first: (Cell, Cell),
    inside: Cell,
    dir: Side,
    remaining: Seq<(Cell, Cell)>,
    fuel: nat,
)
    ensures
        spec_walk(g, tile, first, inside, dir, remaining, fuel) matches Some(w) ==> forall|
            e: (Cell, Cell),
        |
            w.1.contains(e) ==> remaining.contains(e),
    decreases fuel,
{
    if fuel > 0 {
        let stepped = spec_step(g, tile, inside, dir);
        let outside = spec_move_cell(stepped.0, stepped.1.spec_turn_right());
        let e = (stepped.0, outside);
        if e == first {
        } else if g.spec_tile_at(outside) != tile {
            if remaining.contains(e) {
                let idx = remaining.index_of(e);
                let rem2 = remaining.remove(idx);
                assert(forall|x: (Cell, Cell)| rem2.contains(x) ==> remaining.contains(x)) by {
                    assert(forall|k: int|
                        0 <= k < rem2.len() ==> #[trigger] rem2[k] == (if k < idx {
                            remaining[k]
                        } else {
                            remaining[k + 1]
                        }));
                }
                lemma_spec_walk_subset(g, tile, first, stepped.0, stepped.1, rem2, (fuel - 1) as nat);
            }
        } else {
            lemma_spec_walk_subset(
                g,
                tile,
                first,
                stepped.0,
                stepped.1,
                remaining,
                (fuel - 1) as nat,
            );
        }
    }
}

/// Every loop that the walks of a working edge list produce has no gaps:
/// its consumed pairs, wrapped around, follow each other between coinciding
/// or touching inside cells.
pub proof fn lemma_walk_all_connected(g: GameMap, remaining: Seq<(Cell, Cell)>, fuel: nat)
    requires
        g.wf(),
        grid_in_range(g),
        forall|e: (Cell, Cell)| remaining.contains(e) ==> is_boundary_edge(g, e),
    ensures
        spec_walk_all(g, remaining, fuel) matches Some(res) ==> forall|k: int|
            0 <= k < res.len() ==> loop_connected((#[trigger] res[k]).1),
    decreases remaining.len(),
{
    if remaining.len() > 0 {
        let first = remaining[0];
        assert(remaining.contains(first));
        assert(is_boundary_edge(g, first));
        let tile = g.spec_tile_at(first.0);
        match spec_side_of_offset(first.1.0 - first.0.0, first.1.1 - first.0.1) {
            None => {},
            Some(side) => {
                let dir = side.spec_turn_left();
                let rem1 = remaining.drop_first();
                assert(forall|e: (Cell, Cell)| rem1.contains(e) ==> remaining.contains(e)) by {
                    assert(forall|k: int|
                        0 <= k < rem1.len() ==> #[trigger] rem1[k] == remaining[k + 1]);
                }
                lemma_walk_connected(g, tile, first, first.0, dir, rem1, fuel);
                lemma_spec_walk_subset(g, tile, first, first.0, dir, rem1, fuel);
                lemma_spec_walk_shrinks(g, tile, first, first.0, dir, rem1, fuel);
                match spec_walk(g, tile, first, first.0, dir, rem1, fuel) {
                    None => {},
                    Some(walked) => {
                        let pairs = seq![first] + walked.0;
                        if pairs.len() >= 3 {
                            let aug = walked.0.push(first);
                            assert(loop_connected(pairs)) by {
                                assert(pairs[0] == first);
                                assert(forall|i: int|
                                    1 <= i < pairs.len() ==> #[trigger] pairs[i] == walked.0[i
                                        - 1]);
                                assert(cells_adjacent(pairs[0].0, pairs[1].0)) by {
                                    assert(aug[0] == walked.0[0]);
                                    assert(cells_adjacent(first.0, aug[0].0));
                                }
                                assert forall|i: int|
                                    1 <= i < pairs.len() - 1 implies cells_adjacent(
                                    (#[trigger] pairs[i]).0,
                                    pairs[i + 1].0,
                                ) by {
                                    assert(aug[i - 1] == walked.0[i - 1]);
                                    assert(aug[i] == walked.0[i]);
                                    assert(cells_adjacent(aug[i - 1].0, aug[i].0));
                                }
                                assert(cells_adjacent(pairs[pairs.len() - 1].0, pairs[0].0)) by {
                                    let n = walked.0.len() as int;
                                    assert(aug[n - 1] == walked.0[n - 1]);
                                    assert(aug[n] == first);
                                    assert(cells_adjacent(aug[n - 1].0, aug[n].0));
                                }
                            }
                            assert(walked.1.len() < remaining.len());
                            assert(forall|e: (Cell, Cell)|
                                walked.1.contains(e) ==> is_boundary_edge(g, e));
                            lemma_walk_all_connected(g, walked.1, fuel);
                            match spec_walk_all(g, walked.1, fuel) {
                                None => {},
                                Some(rest) => {
                                    let res = seq![(tile, pairs)] + rest;
                                    assert forall|k: int|
                                        0 <= k < res.len() implies loop_connected(
                                        (#[trigger] res[k]).1,
                                    ) by {
                                        if k == 0 {
                                            assert(res[0].1 == pairs);
                                        } else {
                                            assert(res[k] == rest[k - 1]);
                                        }
                                    }
                                },
                            }
                        }
                    },
                }
            },
        }
    }
}

/// Every loop of a grouping is one of the loops that were grouped.
pub proof fn lemma_group_preserves_loops(m: Seq<(Tile, Seq<(Cell, Cell)>)>)
    ensures
        forall|i: int, j: int|
            0 <= i < spec_group(m).len() && 0 <= j < spec_group(m)[i].1.len() ==> exists|k: int|
                0 <= k < m.len() && (#[trigger] spec_group(m)[i].1[j]) == m[k].1,
    decreases m.len(),
{
    if m.len() > 0 {
        lemma_group_preserves_loops(m.drop_last());
        let prefix = spec_group(m.drop_last());
        let last = m.last();
        let gp = spec_group(m);
        assert(forall|k: int| 0 <= k < m.len() - 1 ==> #[trigger] m.drop_last()[k] == m[k]);
        if exists|i: int| 0 <= i < prefix.len() && (#[trigger] prefix[i]).0 == last.0 {
            let ci = choose|i: int| 0 <= i < prefix.len() && (#[trigger] prefix[i]).0 == last.0;
            assert(gp == prefix.update(ci, (last.0, prefix[ci].1.push(last.1))));
            assert forall|i: int, j: int|
                0 <= i < gp.len() && 0 <= j < gp[i].1.len() implies exists|k: int|
                0 <= k < m.len() && (#[trigger] gp[i].1[j]) == m[k].1 by {
                if i == ci && j == gp[ci].1.len() - 1 {
                    assert(gp[i].1[j] == last.1);
                    assert(gp[i].1[j] == m[m.len() - 1].1);
                } else {
                    assert(gp[i].1[j] == prefix[i].1[j]);
                    let k = choose|k: int|
                        0 <= k < m.drop_last().len() && (#[trigger] prefix[i].1[j]) == m.drop_last()[k].1;
                    assert(gp[i].1[j] == m[k].1);
                }
            }
        } else {
            assert(gp == prefix.push((last.0, seq![last.1])));
            assert forall|i: int, j: int|
                0 <= i < gp.len() && 0 <= j < gp[i].1.len() implies exists|k: int|
                0 <= k < m.len() && (#[trigger] gp[i].1[j]) == m[k].1 by {
                if i == gp.len() - 1 {
                    assert(gp[i].1[j] == last.1);
                    assert(gp[i].1[j] == m[m.len() - 1].1);
                } else {
                    assert(gp[i].1[j] == prefix[i].1[j]);
                    let k = choose|k: int|
                        0 <= k < m.drop_last().len() && (#[trigger] prefix[i].1[j]) == m.drop_last()[k].1;
                    assert(gp[i].1[j] == m[k].1);
                }
            }
        }
    }
}

/// The position of an edge in a list, scanning from the front.
fn find_edge(edges: &Vec<(Cell, Cell)>, e: (Cell, Cell)) -> (r: Option<usize>)
    ensures
        r matches Some(i) ==> i < edges@.len() && edges@[i as int] == e,
        r is None <==> !edges@.contains(e),
{
    let mut i: usize = 0;
    while i < edges.len()
        invariant
            i <= edges@.len(),
            forall|k: int| 0 <= k < i ==> #[trigger] edges@[k] != e,
        decreases edges@.len() - i,
    {
        let c = edges[i];
        if c.0 == e.0 && c.1 == e.1 {
            return Some(i);
        }
        i += 1;
    }
    proof {
        assert(!edges@.contains(e));
    }
    None
}

/// Walk one loop with the right hand on the traced boundary, starting just
/// after `first`, consuming from `remaining` every boundary edge crossed,
/// until the walk returns to `first`. Mirrors `spec_walk` exactly: the
/// result is `first` followed by the consumed edges, in crossing order.
#[verifier::rlimit(100)]
fn walk_loop(
    map: &GameMap,
    tile: Tile,
    first: (Cell, Cell),
    dir0: Side,
    remaining: &mut Vec<(Cell, Cell)>,
    cap: u64,
) -> (r: Result<Vec<(Cell, Cell)>, TraceError>)
    requires
        map.wf(),
        grid_in_range(*map),
        map.spec_tile_at(first.0) == tile,
        tile != Tile::Empty,
        is_boundary_edge(*map, first),
        strictly_sorted_edges(old(remaining)@),
        forall|e: (Cell, Cell)| old(remaining)@.contains(e) ==> is_boundary_edge(*map, e),
    ensures
        ({
            let w = spec_walk(*map, tile, first, first.0, dir0, old(remaining)@, cap as nat);
            match r {
                Ok(pairs) => {
                    &&& w matches Some(ws) && pairs@ == seq![first] + ws.0 && final(remaining)@
                        == ws.1
                    &&& strictly_sorted_edges(final(remaining)@)
                    &&& forall|e: (Cell, Cell)|
                        final(remaining)@.contains(e) ==> is_boundary_edge(*map, e)
                    &&& forall|k: int|
                        0 <= k < pairs@.len() ==> is_boundary_edge(*map, #[trigger] pairs@[k])
                    &&& forall|k: int|
                        0 <= k < pairs@.len() ==> map.spec_tile_at((#[trigger] pairs@[k]).0)
                            == tile
                    &&& old(remaining)@.to_multiset() == final(remaining)@.to_multiset().add(
                        pairs@.skip(1).to_multiset(),
                    )
                },
                Err(_) => w is None,
            }
        }),
{
    let ghost rem0 = remaining@;
    let ghost w0 = spec_walk(*map, tile, first, first.0, dir0, rem0, cap as nat);
    let mut inside = first.0;
    let mut dir = dir0;
    let mut pairs: Vec<(Cell, Cell)> = Vec::new();
    pairs.push(first);
    let mut fuel: u64 = cap;
    proof {
        broadcast use vstd::seq_lib::group_to_multiset_ensures;

        assert(pairs@.skip(1) =~= Seq::<(Cell, Cell)>::empty());
        assert(rem0.to_multiset() =~= remaining@.to_multiset().add(pairs@.skip(1).to_multiset()));
    }
    loop
        invariant_except_break
            map.wf(),
            grid_in_range(*map),
            map.spec_tile_at(first.0) == tile,
            tile != Tile::Empty,
            is_boundary_edge(*map, first),
            map.spec_tile_at(inside) == tile,
            rem0 == old(remaining)@,
            strictly_sorted_edges(remaining@),
            forall|e: (Cell, Cell)| remaining@.contains(e) ==> is_boundary_edge(*map, e),
            pairs@.len() >= 1,
            pairs@[0] == first,
            forall|k: int| 0 <= k < pairs@.len() ==> is_boundary_edge(*map, #[trigger] pairs@[k]),
            forall|k: int|
                0 <= k < pairs@.len() ==> map.spec_tile_at((#[trigger] pairs@[k]).0) == tile,
            rem0.to_multiset() == remaining@.to_multiset().add(pairs@.skip(1).to_multiset()),
            w0 == spec_walk(*map, tile, first, first.0, dir0, rem0, cap as nat),
            ({
                match spec_walk(*map, tile, first, inside, dir, remaining@, fuel as nat) {
                    None => w0 is None,
                    Some(ws) => w0 matches Some(w0s) && w0s.0 == pairs@.skip(1) + ws.0 && w0s.1
                        == ws.1,
                }
            }),
        ensures
            map.wf(),
            strictly_sorted_edges(remaining@),
            forall|e: (Cell, Cell)| remaining@.contains(e) ==> is_boundary_edge(*map, e),
            pairs@.len() >= 1,
            pairs@[0] == first,
            forall|k: int| 0 <= k < pairs@.len() ==> is_boundary_edge(*map, #[trigger] pairs@[k]),
            forall|k: int|
                0 <= k < pairs@.len() ==> map.spec_tile_at((#[trigger] pairs@[k]).0) == tile,
            rem0.to_multiset() == remaining@.to_multiset().add(pairs@.skip(1).to_multiset()),
            w0 matches Some(w0s) && w0s.0 == pairs@.skip(1) && w0s.1 == remaining@,
        decreases fuel,
    {
        proof {
            lemma_populated_cell_bounded(*map, inside);
        }
        if fuel == 0 {
            return Err(TraceError::StepLimit);
        }
        let ghost inside_pre = inside;
        let ghost dir_pre = dir;
        let ghost fuel_pre = fuel;
        fuel = fuel - 1;

        // If the cell to the right is in the area, we must turn and move
        let right = dir.turn_right();
        let cand_right = move_cell(inside, right);
        if map.get_tile(cand_right) == tile {
            dir = right;
            inside = cand_right;
        } else {
            // Otherwise, if the cell in front of the current one is in the area, move on
            let cand_fwd = move_cell(inside, dir);
            if map.get_tile(cand_fwd) == tile {
                inside = cand_fwd;
            } else {
                // Finally, if it isn't in as well, turn left
                dir = dir.turn_left();
            }
        }
        proof {
            assert((inside, dir) == spec_step(*map, tile, inside_pre, dir_pre));
            lemma_populated_cell_bounded(*map, inside);
        }
        // recalculate the border faced cell
        let outside = move_cell(inside, dir.turn_right());
        let e = (inside, outside);
        proof {
            assert(e == ({
                let stepped = spec_step(*map, tile, inside_pre, dir_pre);
                (stepped.0, spec_move_cell(stepped.0, stepped.1.spec_turn_right()))
            }));
        }
        if e.0 == first.0 && e.1 == first.1 {
            proof {
                assert(e == first);
                assert(spec_walk(*map, tile, first, inside_pre, dir_pre, remaining@, fuel_pre as nat)
                    == Some((Seq::<(Cell, Cell)>::empty(), remaining@)));
                assert(pairs@.skip(1) + Seq::<(Cell, Cell)>::empty() =~= pairs@.skip(1));
            }
            break;
        }
        let outside_tile = map.get_tile(outside);
        if outside_tile != tile {
            // a genuine boundary edge: it must still be in the working list
            match find_edge(remaining, e) {
                None => {
                    proof {
                        assert(spec_walk(
                            *map,
                            tile,
                            first,
                            inside_pre,
                            dir_pre,
                            remaining@,
                            fuel_pre as nat,
                        ) is None);
                    }
                    return Err(TraceError::MissingEdge);
                },
                Some(idx) => {
                    let ghost rem_before = remaining@;
                    remaining.remove(idx);
                    proof {
                        broadcast use vstd::seq_lib::group_to_multiset_ensures;

                        assert(rem_before[idx as int] == e);
                        assert(rem_before.index_of(e) == idx as int) by {
                            let j = rem_before.index_of(e);
                            assert(rem_before.contains(e));
                            assert(0 <= j < rem_before.len() && rem_before[j] == e);
                            if j != idx as int {
                                if j < idx as int {
                                    assert(edge_lt(rem_before[j], rem_before[idx as int]));
                                } else {
                                    assert(edge_lt(rem_before[idx as int], rem_before[j]));
                                }
                                lemma_edge_lt_order(e, e, e);
                            }
                        }
                        assert(strictly_sorted_edges(remaining@)) by {
                            assert(forall|k: int|
                                0 <= k < remaining@.len() ==> #[trigger] remaining@[k] == (
                                if k < idx as int {
                                    rem_before[k]
                                } else {
                                    rem_before[k + 1]
                                }));
                        }
                        assert(forall|x: (Cell, Cell)|
                            remaining@.contains(x) ==> rem_before.contains(x)) by {
                            assert(forall|k: int|
                                0 <= k < remaining@.len() ==> #[trigger] remaining@[k] == (
                                if k < idx as int {
                                    rem_before[k]
                                } else {
                                    rem_before[k + 1]
                                }));
                        }
                    }
                    let ghost pairs_before = pairs@;
                    pairs.push(e);
                    proof {
                        broadcast use vstd::seq_lib::group_to_multiset_ensures;

                        assert(is_boundary_edge(*map, e)) by {
                            assert(e.1 == spec_move_cell(e.0, dir.spec_turn_right()));
                        }
                        assert(pairs@.skip(1) =~= pairs_before.skip(1).push(e));
                        assert(rem_before.to_multiset() == remaining@.to_multiset().insert(e));
                        assert(pairs@.skip(1).to_multiset() == pairs_before.skip(
                            1,
                        ).to_multiset().insert(e));
                        assert(rem0.to_multiset() =~= remaining@.to_multiset().add(
                            pairs@.skip(1).to_multiset(),
                        ));
                        // realign the walk mirror after consuming e
                        assert(spec_walk(
                            *map,
                            tile,
                            first,
                            inside_pre,
                            dir_pre,
                            rem_before,
                            fuel_pre as nat,
                        ) == (match spec_walk(*map, tile, first, inside, dir, remaining@, fuel as nat) {
                            None => None::<(Seq<(Cell, Cell)>, Seq<(Cell, Cell)>)>,
                            Some(rest) => Some((seq![e] + rest.0, rest.1)),
                        }));
                        match spec_walk(*map, tile, first, inside, dir, remaining@, fuel as nat) {
                            Some(ws) => {
                                assert(pairs_before.skip(1) + (seq![e] + ws.0) =~= pairs@.skip(1)
                                    + ws.0);
                            },
                            None => {},
                        }
                    }
                },
            }
        } else {
            proof {
                assert(spec_walk(*map, tile, first, inside_pre, dir_pre, remaining@, fuel_pre as nat)
                    == spec_walk(*map, tile, first, inside, dir, remaining@, fuel as nat));
            }
        }
    }
    Ok(pairs)
}

/// Both cells of a boundary edge lie within one step of the tracer's bounds.
proof fn lemma_edge_cells_bounded(g: GameMap, e: (Cell, Cell))
    requires
        is_boundary_edge(g, e),
    ensures
        -CELL_BOUND <= e.0.0 <= CELL_BOUND,
        -CELL_BOUND <= e.0.1 <= CELL_BOUND,
        -CELL_BOUND - 1 <= e.1.0 <= CELL_BOUND + 1,
        -CELL_BOUND - 1 <= e.1.1 <= CELL_BOUND + 1,
{
    let s = choose|s: Side| e.1 == spec_move_cell(e.0, s);
    assert(e.1 == spec_move_cell(e.0, s));
}

/// The midpoints of the cell-centre pairs of a traced loop.
fn midpoints(pairs: &Vec<(Cell, Cell)>) -> (r: Vec<WorldPosition>)
    requires
        forall|k: int|
            0 <= k < pairs@.len() ==> {
                let e = #[trigger] pairs@[k];
                &&& -CELL_BOUND - 1 <= e.0.0 <= CELL_BOUND + 1
                &&& -CELL_BOUND - 1 <= e.0.1 <= CELL_BOUND + 1
                &&& -CELL_BOUND - 1 <= e.1.0 <= CELL_BOUND + 1
                &&& -CELL_BOUND - 1 <= e.1.1 <= CELL_BOUND + 1
            },
    ensures
        r@.len() == pairs@.len(),
        forall|k: int| 0 <= k < pairs@.len() ==> #[trigger] r@[k] == spec_midpoint(pairs@[k]),
        forall|k: int| 0 <= k < pairs@.len() ==> crate::maths::in_range(#[trigger] r@[k]),
{
    let mut r: Vec<WorldPosition> = Vec::new();
    let mut i: usize = 0;
    while i < pairs.len()
        invariant
            i <= pairs@.len(),
            r@.len() == i,
            forall|k: int|
                0 <= k < pairs@.len() ==> {
                    let e = #[trigger] pairs@[k];
                    &&& -CELL_BOUND - 1 <= e.0.0 <= CELL_BOUND + 1
                    &&& -CELL_BOUND - 1 <= e.0.1 <= CELL_BOUND + 1
                    &&& -CELL_BOUND - 1 <= e.1.0 <= CELL_BOUND + 1
                    &&& -CELL_BOUND - 1 <= e.1.1 <= CELL_BOUND + 1
                },
            forall|k: int| 0 <= k < i ==> #[trigger] r@[k] == spec_midpoint(pairs@[k]),
            forall|k: int| 0 <= k < i ==> crate::maths::in_range(#[trigger] r@[k]),
        decreases pairs@.len() - i,
    {
        let e = pairs[i];
        let x = 128 * ((e.0.0 as i64) + (e.1.0 as i64) + 1);
        let y = 128 * ((e.0.1 as i64) + (e.1.1 as i64) + 1);
        r.push(WorldPosition(x, y));
        i += 1;
    }
    r
}

/// The traced loops reduced to their tile and consumed edges, in order.
pub open spec fn flat_pairs_model(s: Seq<(Tile, Loop)>) -> Seq<(Tile, Seq<(Cell, Cell)>)> {
    Seq::new(s.len(), |i: int| (s[i].0, s[i].1.pairs@))
}

/// All edges consumed by a list of traced loops, counted with multiplicity.
pub open spec fn model_edge_ms(m: Seq<(Tile, Seq<(Cell, Cell)>)>) -> Multiset<(Cell, Cell)>
    decreases m.len(),
{
    if m.len() == 0 {
        Multiset::empty()
    } else {
        model_edge_ms(m.drop_last()).add(m.last().1.to_multiset())
    }
}

/// Grouping a list of traced loops by tile: each loop joins the entry of its
/// tile, entries appearing in the order their tiles are first met.
pub open spec fn spec_group(m: Seq<(Tile, Seq<(Cell, Cell)>)>) -> Seq<(Tile, Seq<Seq<(Cell, Cell)>>)>
    decreases m.len(),
{
    if m.len() == 0 {
        Seq::empty()
    } else {
        let prefix = spec_group(m.drop_last());
        let last = m.last();
        if exists|i: int| 0 <= i < prefix.len() && (#[trigger] prefix[i]).0 == last.0 {
            let i = choose|i: int| 0 <= i < prefix.len() && (#[trigger] prefix[i]).0 == last.0;
            prefix.update(i, (last.0, prefix[i].1.push(last.1)))
        } else {
            prefix.push((last.0, seq![last.1]))
        }
    }
}

/// No two entries of a grouping carry the same tile.
pub proof fn lemma_group_distinct_tiles(m: Seq<(Tile, Seq<(Cell, Cell)>)>)
    ensures
        forall|i: int, j: int|
            0 <= i < j < spec_group(m).len() ==> (#[trigger] spec_group(m)[i]).0 != (
            #[trigger] spec_group(m)[j]).0,
    decreases m.len(),
{
    if m.len() > 0 {
        lemma_group_distinct_tiles(m.drop_last());
        let prefix = spec_group(m.drop_last());
        let last = m.last();
        if exists|i: int| 0 <= i < prefix.len() && (#[trigger] prefix[i]).0 == last.0 {
            let i = choose|i: int| 0 <= i < prefix.len() && (#[trigger] prefix[i]).0 == last.0;
            let g = spec_group(m);
            assert(g == prefix.update(i, (last.0, prefix[i].1.push(last.1))));
            assert(forall|k: int| 0 <= k < g.len() ==> (#[trigger] g[k]).0 == prefix[k].0);
        }
    }
}

/// The position of a tile's entry in a loop set under construction.
fn find_entry(entries: &Vec<(Tile, Vec<Loop>)>, tile: Tile) -> (r: Option<usize>)
    ensures
        r matches Some(i) ==> i < entries@.len() && entries@[i as int].0 == tile,
        r is None ==> forall|k: int| 0 <= k < entries@.len() ==> (#[trigger] entries@[k]).0 != tile,
{
    let mut i: usize = 0;
    while i < entries.len()
        invariant
            i <= entries@.len(),
            forall|k: int| 0 <= k < i ==> (#[trigger] entries@[k]).0 != tile,
        decreases entries@.len() - i,
    {
        if entries[i].0 == tile {
            return Some(i);
        }
        i += 1;
    }
    None
}

/// Gather the traced loops into a loop set, one entry per tile kind, in the
/// order the tiles were first met.
fn group_loops(flat: Vec<(Tile, Loop)>) -> (r: LoopSet)
    ensures
        ({
            let gp = spec_group(flat_pairs_model(flat@));
            &&& r.entries@.len() == gp.len()
            &&& forall|i: int| 0 <= i < gp.len() ==> (#[trigger] r.entries@[i]).0 == gp[i].0
            &&& forall|i: int|
                0 <= i < gp.len() ==> (#[trigger] r.entries@[i]).1@.len() == gp[i].1.len()
            &&& forall|i: int, j: int|
                0 <= i < gp.len() && 0 <= j < gp[i].1.len() ==> (#[trigger] r.entries@[i].1@[j]).pairs@
                    == gp[i].1[j]
            &&& forall|i: int, j: int|
                0 <= i < gp.len() && 0 <= j < gp[i].1.len() ==> exists|k: int|
                    0 <= k < flat@.len() && (#[trigger] flat@[k]).1 == (
                    #[trigger] r.entries@[i].1@[j]) && flat@[k].0 == r.entries@[i].0
        }),
{
    let ghost flat0 = flat@;
    let mut rest = flat;
    let mut r = LoopSet { entries: Vec::new() };
    while rest.len() > 0
        invariant
            rest@.len() <= flat0.len(),
            rest@ == flat0.skip(flat0.len() - rest@.len()),
            ({
                let n = flat0.len() - rest@.len();
                let gp = spec_group(flat_pairs_model(flat0.take(n as int)));
                &&& r.entries@.len() == gp.len()
                &&& forall|i: int| 0 <= i < gp.len() ==> (#[trigger] r.entries@[i]).0 == gp[i].0
                &&& forall|i: int|
                    0 <= i < gp.len() ==> (#[trigger] r.entries@[i]).1@.len() == gp[i].1.len()
                &&& forall|i: int, j: int|
                    0 <= i < gp.len() && 0 <= j < gp[i].1.len() ==> (
                    #[trigger] r.entries@[i].1@[j]).pairs@ == gp[i].1[j]
                &&& forall|i: int, j: int|
                    0 <= i < gp.len() && 0 <= j < gp[i].1.len() ==> exists|k: int|
                        0 <= k < flat0.len() && (#[trigger] flat0[k]).1 == (
                        #[trigger] r.entries@[i].1@[j]) && flat0[k].0 == r.entries@[i].0
            }),
        decreases rest@.len(),
    {
        let ghost n = flat0.len() - rest@.len();
        let ghost model_pre = flat_pairs_model(flat0.take(n as int));
        let ghost gp_pre = spec_group(model_pre);
        let (tile, lp) = rest.remove(0);
        proof {
            assert(flat0[n as int] == (tile, lp));
            assert(rest@ =~= flat0.skip(flat0.len() - rest@.len()));
            assert(flat_pairs_model(flat0.take(n as int + 1)).drop_last() =~= model_pre);
            assert(flat_pairs_model(flat0.take(n as int + 1)).last() == (tile, lp.pairs@));
            lemma_group_distinct_tiles(model_pre);
        }
        let ghost gp_post = spec_group(flat_pairs_model(flat0.take(n as int + 1)));
        match find_entry(&r.entries, tile) {
            Some(idx) => {
                proof {
                    assert(r.entries@[idx as int].0 == tile);
                    assert(gp_pre[idx as int].0 == tile);
                    assert(exists|i: int|
                        0 <= i < gp_pre.len() && (#[trigger] gp_pre[i]).0 == tile);
                    let ci = choose|i: int|
                        0 <= i < gp_pre.len() && (#[trigger] gp_pre[i]).0 == tile;
                    if ci != idx as int {
                        assert(gp_pre[idx as int].0 == tile);
                        assert(false);
                    }
                    assert(gp_post == gp_pre.update(
                        idx as int,
                        (tile, gp_pre[idx as int].1.push(lp.pairs@)),
                    ));
                }
                let ghost entries_pre = r.entries@;
                let ghost lp_snap = lp;
                let mut entry = r.entries.remove(idx);
                entry.1.push(lp);
                r.entries.insert(idx, entry);
                proof {
                    assert(r.entries@.len() == entries_pre.len());
                    assert(forall|k: int|
                        0 <= k < entries_pre.len() && k != idx as int ==> #[trigger] r.entries@[k]
                            == entries_pre[k]);
                    assert(r.entries@[idx as int].0 == entries_pre[idx as int].0);
                    assert(r.entries@[idx as int].1@ == entries_pre[idx as int].1@.push(lp_snap));
                }
            },
            None => {
                proof {
                    assert(!(exists|i: int|
                        0 <= i < gp_pre.len() && (#[trigger] gp_pre[i]).0 == tile)) by {
                        if exists|i: int| 0 <= i < gp_pre.len() && (#[trigger] gp_pre[i]).0
                            == tile {
                            let ci = choose|i: int|
                                0 <= i < gp_pre.len() && (#[trigger] gp_pre[i]).0 == tile;
                            assert(r.entries@[ci].0 == tile);
                        }
                    }
                    assert(gp_post == gp_pre.push((tile, seq![lp.pairs@])));
                }
                let mut loops: Vec<Loop> = Vec::new();
                loops.push(lp);
                r.entries.push((tile, loops));
            },
        }
    }
    proof {
        assert(flat0.take(flat0.len() as int) =~= flat0);
        assert(flat0 == flat@);
    }
    r
}

/// Every entry of a grouping holds at least one loop.
pub proof fn lemma_group_nonempty(m: Seq<(Tile, Seq<(Cell, Cell)>)>)
    ensures
        forall|i: int| 0 <= i < spec_group(m).len() ==> (#[trigger] spec_group(m)[i]).1.len() >= 1,
    decreases m.len(),
{
    if m.len() > 0 {
        lemma_group_nonempty(m.drop_last());
        let prefix = spec_group(m.drop_last());
        let last = m.last();
        if exists|i: int| 0 <= i < prefix.len() && (#[trigger] prefix[i]).0 == last.0 {
            let i = choose|i: int| 0 <= i < prefix.len() && (#[trigger] prefix[i]).0 == last.0;
            let g = spec_group(m);
            assert(g == prefix.update(i, (last.0, prefix[i].1.push(last.1))));
            assert(forall|k: int|
                0 <= k < g.len() && k != i ==> (#[trigger] g[k]).1 == prefix[k].1);
        }
    }
}

/// What a successful trace of the grid returns: the by-tile grouping of the
/// canonical traced loops, each loop at least three boundary edges long with
/// their midpoints as its points, every boundary edge of the grid consumed
/// by exactly one loop exactly once.
pub open spec fn spec_trace_result(g: GameMap, ls: LoopSet) -> bool {
    let m = spec_trace(g)->Some_0;
    let gp = spec_group(m);
    // the loop set is the by-tile grouping of the traced loops
    &&& ls.entries@.len() == gp.len()
    &&& forall|i: int| 0 <= i < gp.len() ==> (#[trigger] ls.entries@[i]).0 == gp[i].0
    &&& forall|i: int| 0 <= i < gp.len() ==> (#[trigger] ls.entries@[i]).1@.len() == gp[i].1.len()
    &&& forall|i: int, j: int|
        0 <= i < gp.len() && 0 <= j < gp[i].1.len() ==> (#[trigger] ls.entries@[i].1@[j]).pairs@
            == gp[i].1[j]
    // every boundary edge of the grid is consumed exactly once
    &&& forall|e: (Cell, Cell)|
        model_edge_ms(m).count(e) == (if is_boundary_edge(g, e) {
            1nat
        } else {
            0nat
        })
    // every loop closes over at least three boundary edges of its own tile,
    // and its points are the midpoints of its pairs
    &&& forall|i: int, j: int|
        0 <= i < ls.entries@.len() && 0 <= j < ls.entries@[i].1@.len() ==> {
            let lp = #[trigger] ls.entries@[i].1@[j];
            &&& lp.pairs@.len() >= 3
            &&& lp.points@.len() == lp.pairs@.len()
            &&& forall|k: int|
                0 <= k < lp.pairs@.len() ==> #[trigger] lp.points@[k] == spec_midpoint(
                    lp.pairs@[k],
                ) && crate::maths::in_range(lp.points@[k])
            &&& forall|k: int|
                0 <= k < lp.pairs@.len() ==> is_boundary_edge(g, #[trigger] lp.pairs@[k])
                    && g.spec_tile_at(lp.pairs@[k].0) == ls.entries@[i].0
        }
    &&& forall|i: int|
        0 <= i < ls.entries@.len() ==> (#[trigger] ls.entries@[i]).0 != Tile::Empty
            && ls.entries@[i].1@.len() >= 1
    // every loop's traced path has no gaps: consecutive consumed pairs —
    // the last wrapping back to the first — have coinciding or touching
    // inside cells, diagonals included
    &&& forall|i: int, j: int|
        0 <= i < ls.entries@.len() && 0 <= j < ls.entries@[i].1@.len() ==> loop_connected(
            (#[trigger] ls.entries@[i].1@[j]).pairs@,
        )
    &&& ls.wf()
}

/// Tracing is deterministic: any two loop sets traced from the same grid
/// agree entry for entry, loop for loop, point for point.
pub proof fn lemma_trace_deterministic(g: GameMap, ls1: LoopSet, ls2: LoopSet)
    requires
        spec_trace(g) is Some,
        spec_trace_result(g, ls1),
        spec_trace_result(g, ls2),
    ensures
        ls1.entries@.len() == ls2.entries@.len(),
        forall|i: int|
            0 <= i < ls1.entries@.len() ==> (#[trigger] ls1.entries@[i]).0 == ls2.entries@[i].0
                && ls1.entries@[i].1@.len() == ls2.entries@[i].1@.len(),
        forall|i: int, j: int|
            0 <= i < ls1.entries@.len() && 0 <= j < ls1.entries@[i].1@.len() ==> (
            #[trigger] ls1.entries@[i].1@[j]).pairs@ == ls2.entries@[i].1@[j].pairs@ && ls1.entries@[i].1@[j].points@
                == ls2.entries@[i].1@[j].points@,
{
    let gp = spec_group(spec_trace(g)->Some_0);
    assert forall|i: int, j: int|
        0 <= i < ls1.entries@.len() && 0 <= j < ls1.entries@[i].1@.len() implies (
    #[trigger] ls1.entries@[i].1@[j]).pairs@ == ls2.entries@[i].1@[j].pairs@ && ls1.entries@[i].1@[j].points@
        == ls2.entries@[i].1@[j].points@ by {
        let lp1 = ls1.entries@[i].1@[j];
        let lp2 = ls2.entries@[i].1@[j];
        assert(lp1.pairs@ == gp[i].1[j] && lp2.pairs@ == gp[i].1[j]);
        assert(lp1.points@ =~= lp2.points@);
    }
}

/// Derive closed boundary loops for every tile kind of the grid, walking the
/// boundary edges with the right hand on the wall: each loop starts at the
/// smallest unconsumed edge, and every boundary edge is consumed by exactly
/// one loop exactly once. The result is a function of the grid alone, so
/// tracing an unchanged grid twice gives identical loops.
#[verifier::rlimit(100)]
pub fn trace(map: &GameMap) -> (r: Result<LoopSet, TraceError>)
    requires
        map.wf(),
        grid_in_range(*map),
        map.entries().len() < usize::MAX as int / 8,
    ensures
        r is Ok <==> spec_trace(*map) is Some,
        r matches Ok(ls) ==> spec_trace_result(*map, ls),
{
    let edges0 = boundary_edges(map);
    let ghost edges0v = edges0@;
    let tiles = map.iter_tiles();
    let cap: u64 = 4 * (tiles.len() as u64) + 4;
    let mut remaining = edges0;
    let mut flat: Vec<(Tile, Loop)> = Vec::new();
    proof {
        assert(cap as nat == spec_fuel(*map));
        assert(flat_pairs_model(flat@) =~= Seq::<(Tile, Seq<(Cell, Cell)>)>::empty());
        assert(model_edge_ms(flat_pairs_model(flat@)) == Multiset::<(Cell, Cell)>::empty());
        broadcast use vstd::seq_lib::group_to_multiset_ensures;
        broadcast use vstd::multiset::group_multiset_axioms;

        assert(edges0v.to_multiset() =~= model_edge_ms(flat_pairs_model(flat@)).add(
            remaining@.to_multiset(),
        ));
        match spec_walk_all(*map, remaining@, cap as nat) {
            None => {},
            Some(rest) => {
                assert(flat_pairs_model(flat@) + rest =~= rest);
            },
        }
    }
    while remaining.len() > 0
        invariant
            map.wf(),
            grid_in_range(*map),
            cap as nat == spec_fuel(*map),
            strictly_sorted_edges(remaining@),
            forall|e: (Cell, Cell)| remaining@.contains(e) ==> is_boundary_edge(*map, e),
            edges0v == spec_sorted_edges(*map),
            forall|e: (Cell, Cell)| #[trigger] edges0v.contains(e) <==> is_boundary_edge(*map, e),
            strictly_sorted_edges(edges0v),
            edges0v.to_multiset() == model_edge_ms(flat_pairs_model(flat@)).add(
                remaining@.to_multiset(),
            ),
            ({
                match spec_walk_all(*map, remaining@, cap as nat) {
                    None => spec_trace(*map) is None,
                    Some(rest) => spec_trace(*map) matches Some(m) && m == flat_pairs_model(flat@)
                        + rest,
                }
            }),
            forall|k: int|
                0 <= k < flat@.len() ==> {
                    let fl = #[trigger] flat@[k];
                    &&& fl.1.pairs@.len() >= 3
                    &&& fl.1.points@.len() == fl.1.pairs@.len()
                    &&& forall|t: int|
                        0 <= t < fl.1.pairs@.len() ==> #[trigger] fl.1.points@[t] == spec_midpoint(
                            fl.1.pairs@[t],
                        ) && crate::maths::in_range(fl.1.points@[t])
                    &&& forall|t: int|
                        0 <= t < fl.1.pairs@.len() ==> is_boundary_edge(
                            *map,
                            #[trigger] fl.1.pairs@[t],
                        ) && map.spec_tile_at(fl.1.pairs@[t].0) == fl.0
                    &&& fl.0 != Tile::Empty
                }
        decreases remaining@.len(),
    {
        let ghost rem_entry = remaining@;
        let first = remaining[0];
        proof {
            assert(remaining@.contains(first));
            assert(is_boundary_edge(*map, first));
            lemma_edge_cells_bounded(*map, first);
        }
        let tile = map.get_tile(first.0);
        let dx = first.1.0 - first.0.0;
        let dy = first.1.1 - first.0.1;
        let ghost side_spec = spec_side_of_offset(dx as int, dy as int);
        proof {
            assert(exists|s: Side| first.1 == spec_move_cell(first.0, s));
            let s_wit = choose|s: Side| first.1 == spec_move_cell(first.0, s);
            assert(first.1 == spec_move_cell(first.0, s_wit));
            assert(dx as int == s_wit.spec_dir().0 && dy as int == s_wit.spec_dir().1);
            assert(side_spec == Some(s_wit));
        }
        let side0 = match Side::from_dir((dx, dy)) {
            Ok(s) => s,
            Err(_) => {
                return Err(TraceError::InvalidDirection);
            },
        };
        proof {
            assert(side_spec == Some(side0));
        }
        let dir0 = side0.turn_left();
        remaining.remove(0);
        proof {
            assert(remaining@ =~= rem_entry.drop_first());
            assert(strictly_sorted_edges(remaining@)) by {
                assert(forall|a: int|
                    0 <= a < remaining@.len() ==> #[trigger] remaining@[a] == rem_entry[a + 1]);
            }
            assert(forall|e: (Cell, Cell)| remaining@.contains(e) ==> rem_entry.contains(e)) by {
                assert(forall|a: int|
                    0 <= a < remaining@.len() ==> #[trigger] remaining@[a] == rem_entry[a + 1]);
            }
        }
        let ghost rem1 = remaining@;
        let pairs = match walk_loop(map, tile, first, dir0, &mut remaining, cap) {
            Ok(p) => p,
            Err(err) => {
                return Err(err);
            },
        };
        if pairs.len() < 3 {
            return Err(TraceError::ShortLoop);
        }
        proof {
            assert(forall|k: int|
                0 <= k < pairs@.len() ==> {
                    let e = #[trigger] pairs@[k];
                    &&& -CELL_BOUND - 1 <= e.0.0 <= CELL_BOUND + 1
                    &&& -CELL_BOUND - 1 <= e.0.1 <= CELL_BOUND + 1
                    &&& -CELL_BOUND - 1 <= e.1.0 <= CELL_BOUND + 1
                    &&& -CELL_BOUND - 1 <= e.1.1 <= CELL_BOUND + 1
                }) by {
                assert forall|k: int| 0 <= k < pairs@.len() implies {
                    let e = #[trigger] pairs@[k];
                    &&& -CELL_BOUND - 1 <= e.0.0 <= CELL_BOUND + 1
                    &&& -CELL_BOUND - 1 <= e.0.1 <= CELL_BOUND + 1
                    &&& -CELL_BOUND - 1 <= e.1.0 <= CELL_BOUND + 1
                    &&& -CELL_BOUND - 1 <= e.1.1 <= CELL_BOUND + 1
                } by {
                    lemma_edge_cells_bounded(*map, pairs@[k]);
                }
            }
        }
        let points = midpoints(&pairs);
        let ghost flat_pre = flat@;
        let ghost pairs_v = pairs@;
        let ghost ws = spec_walk(*map, tile, first, first.0, dir0, rem1, cap as nat)->Some_0;
        flat.push((tile, Loop { points, pairs }));
        proof {
            broadcast use vstd::seq_lib::group_to_multiset_ensures;
            broadcast use vstd::multiset::group_multiset_axioms;

            let model_pre = flat_pairs_model(flat_pre);
            let model_post = flat_pairs_model(flat@);
            assert(model_post =~= model_pre.push((tile, pairs_v)));
            assert(model_post.drop_last() =~= model_pre);
            assert(model_edge_ms(model_post) == model_edge_ms(model_pre).add(
                pairs_v.to_multiset(),
            ));
            // pairs holds first plus the edges the walk consumed
            assert(pairs_v == seq![first] + ws.0);
            assert(pairs_v.remove(0) =~= ws.0);
            assert(pairs_v[0] == first);
            assert(pairs_v.to_multiset().contains(first));
            assert(ws.0.to_multiset() =~= pairs_v.to_multiset().remove(first));
            assert(pairs_v.to_multiset() =~= ws.0.to_multiset().insert(first));
            // the working list shrank by exactly those edges
            assert(rem1.to_multiset() == remaining@.to_multiset().add(ws.0.to_multiset()));
            assert(rem_entry[0] == first);
            assert(rem_entry.remove(0) =~= rem1);
            assert(rem1.to_multiset() =~= rem_entry.to_multiset().remove(first));
            assert(rem_entry.to_multiset().contains(first));
            assert(rem_entry.to_multiset() =~= rem1.to_multiset().insert(first));
            assert(edges0v.to_multiset() =~= model_edge_ms(model_post).add(
                remaining@.to_multiset(),
            ));
            // realign the outer mirror after this loop
            assert(spec_walk_all(*map, rem_entry, cap as nat) == (match spec_walk_all(
                *map,
                remaining@,
                cap as nat,
            ) {
                None => None::<Seq<(Tile, Seq<(Cell, Cell)>)>>,
                Some(rest) => Some(seq![(tile, pairs_v)] + rest),
            }));
            match spec_walk_all(*map, remaining@, cap as nat) {
                None => {},
                Some(rest) => {
                    assert(model_pre + (seq![(tile, pairs_v)] + rest) =~= model_post + rest);
                },
            }
            // the walk consumed at least the starting edge
            assert(rem1.to_multiset().len() == rem1.len());
            assert(remaining@.to_multiset().len() == remaining@.len());
            assert(rem1.to_multiset().len() == remaining@.to_multiset().len()
                + ws.0.to_multiset().len());
            assert(remaining@.len() <= rem1.len());
            assert(rem1.len() < rem_entry.len());
        }
    }
    proof {
        broadcast use vstd::seq_lib::group_to_multiset_ensures;
        broadcast use vstd::multiset::group_multiset_axioms;

        assert(remaining@ =~= Seq::<(Cell, Cell)>::empty());
        assert(spec_walk_all(*map, remaining@, cap as nat) == Some(
            Seq::<(Tile, Seq<(Cell, Cell)>)>::empty(),
        ));
        let m = spec_trace(*map)->Some_0;
        assert(m == flat_pairs_model(flat@) + Seq::<(Tile, Seq<(Cell, Cell)>)>::empty());
        assert(m =~= flat_pairs_model(flat@));
        assert(remaining@.to_multiset() =~= Multiset::<(Cell, Cell)>::empty());
        assert(edges0v.to_multiset() =~= model_edge_ms(m));
        // the canonical edge list has no duplicates, so each edge counts once
        assert(edges0v.no_duplicates()) by {
            assert forall|i: int, j: int|
                0 <= i < edges0v.len() && 0 <= j < edges0v.len() && i != j implies edges0v[i]
                != edges0v[j] by {
                if i < j {
                    lemma_edge_lt_order(edges0v[i], edges0v[j], edges0v[i]);
                } else {
                    lemma_edge_lt_order(edges0v[j], edges0v[i], edges0v[j]);
                }
            }
        }
        edges0v.lemma_multiset_has_no_duplicates();
        assert forall|e: (Cell, Cell)|
            model_edge_ms(m).count(e) == (if is_boundary_edge(*map, e) {
                1nat
            } else {
                0nat
            }) by {
            if is_boundary_edge(*map, e) {
                assert(edges0v.contains(e));
                assert(edges0v.to_multiset().count(e) > 0);
                assert(edges0v.to_multiset().contains(e));
            } else {
                assert(!edges0v.contains(e));
                assert(edges0v.to_multiset().count(e) == 0);
            }
        }
    }
    let ghost flat_final = flat@;
    let ls = group_loops(flat);
    proof {
        let m = spec_trace(*map)->Some_0;
        let gp = spec_group(m);
        lemma_group_nonempty(m);
        assert(flat_pairs_model(flat_final) == m);
        // transfer the per-loop facts through the grouping's provenance
        assert forall|i: int, j: int|
            0 <= i < ls.entries@.len() && 0 <= j < ls.entries@[i].1@.len() implies {
            let lp = #[trigger] ls.entries@[i].1@[j];
            &&& lp.pairs@.len() >= 3
            &&& lp.points@.len() == lp.pairs@.len()
            &&& forall|k: int|
                0 <= k < lp.pairs@.len() ==> #[trigger] lp.points@[k] == spec_midpoint(
                    lp.pairs@[k],
                ) && crate::maths::in_range(lp.points@[k])
            &&& forall|k: int|
                0 <= k < lp.pairs@.len() ==> is_boundary_edge(*map, #[trigger] lp.pairs@[k])
                    && map.spec_tile_at(lp.pairs@[k].0) == ls.entries@[i].0
        } by {
            let k = choose|k: int|
                0 <= k < flat_final.len() && (#[trigger] flat_final[k]).1 == ls.entries@[i].1@[j]
                    && flat_final[k].0 == ls.entries@[i].0;
            assert(flat_final[k].1 == ls.entries@[i].1@[j]);
        }
        assert forall|i: int| 0 <= i < ls.entries@.len() implies (#[trigger] ls.entries@[i]).0
            != Tile::Empty && ls.entries@[i].1@.len() >= 1 by {
            assert(gp[i].1.len() >= 1);
            assert(ls.entries@[i].1@.len() >= 1);
            let k = choose|k: int|
                0 <= k < flat_final.len() && (#[trigger] flat_final[k]).1 == ls.entries@[i].1@[0]
                    && flat_final[k].0 == ls.entries@[i].0;
            assert(flat_final[k].0 != Tile::Empty);
        }
        // the walks never jump, so every loop of the grouping has no gaps
        lemma_walk_all_connected(*map, edges0v, cap as nat);
        lemma_group_preserves_loops(m);
        assert forall|i: int, j: int|
            0 <= i < ls.entries@.len() && 0 <= j < ls.entries@[i].1@.len() implies loop_connected(
            (#[trigger] ls.entries@[i].1@[j]).pairs@,
        ) by {
            assert(ls.entries@[i].1@[j].pairs@ == gp[i].1[j]);
            let k = choose|k: int| 0 <= k < m.len() && (#[trigger] gp[i].1[j]) == m[k].1;
            assert(loop_connected(m[k].1));
        }
    }
    Ok(ls)
}

} // verus!
