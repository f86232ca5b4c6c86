use vstd::prelude::*;

use crate::maths::Cell;

verus! {

/// Represent a tile on the map and all its properties
///
/// Prototype, miss a lot of features for now
#[derive(Debug, Clone, Copy, PartialEq, Eq, Structural, Hash)]
pub enum Tile {
    Empty,
    Road,
    Wall,
    Gravel,
    Dirt,
    Ice,
}

/// An RGB display colour; the rasterizer packs it into the output buffer
/// together with an alpha byte.
#[derive(Debug, Clone, Copy, PartialEq, Eq, Structural)]
pub struct Color {
    pub r: u8,
    pub g: u8,
    pub b: u8,
}

impl Tile {
    /// The tile read from a one-character token, if the token names one.
    pub open spec fn spec_read_tile(s: Seq<char>) -> Option<Tile> {
        if s.len() == 1 {
            match s[0] {
                ' ' => Some(Tile::Empty),
                'W' => Some(Tile::Wall),
                'R' => Some(Tile::Road),
                'G' => Some(Tile::Gravel),
                'D' => Some(Tile::Dirt),
                'I' => Some(Tile::Ice),
                _ => None,
            }
        } else {
            None
        }
    }

    /// The message reported for a token that names no tile.
    pub open spec fn spec_read_tile_err(s: Seq<char>) -> Seq<char> {
        if s.len() == 0 {
            "nul character"@
        } else if s.len() == 1 {
            "unknown character "@ + s
        } else {
            "too many characters"@
        }
    }

    /// Create a tile from a character, is used to generate a map from a file
    pub fn read_tile(tile_char: &str) -> (r: Result<Self, String>)
        ensures
            r is Ok <==> Self::spec_read_tile(tile_char@) is Some,
            r matches Ok(t) ==> Self::spec_read_tile(tile_char@) == Some(t),
            r matches Err(e) ==> e@ == Self::spec_read_tile_err(tile_char@),
    {
        let n = tile_char.unicode_len();
        if n == 0 {
            Err("nul character".to_owned())
        } else if n == 1 {
            let c = tile_char.get_char(0);
            proof {
                assert(tile_char@ =~= seq![tile_char@[0]]);
            }
            match c {
                ' ' => Ok(Self::Empty),
                'W' => Ok(Self::Wall),
                'R' => Ok(Self::Road),
                'G' => Ok(Self::Gravel),
                'D' => Ok(Self::Dirt),
                'I' => Ok(Self::Ice),
                _ => {
                    let mut e = String::from_str("unknown character ");
                    e.append(tile_char);
                    Err(e)
                },
            }
        } else {
            Err("too many characters".to_owned())
        }
    }

    /// The display colour of each tile kind.
    pub open spec fn spec_color(&self) -> Color {
        match self {
            Tile::Empty => Color { r: 255, g: 255, b: 255 },
            Tile::Road => Color { r: 128, g: 128, b: 128 },
            Tile::Wall => Color { r: 0, g: 0, b: 0 },
            Tile::Gravel => Color { r: 100, g: 100, b: 100 },
            Tile::Dirt => Color { r: 255, g: 0, b: 0 },
            Tile::Ice => Color { r: 0, g: 0, b: 255 },
        }
    }

    /// Get the color for a tile, is very likely to be replaced by some kind of texture
    pub fn tile_color(&self) -> (r: Color)
        ensures
            r == self.spec_color(),
    {
        match self {
            Tile::Empty => Color { r: 255, g: 255, b: 255 },
            Tile::Road => Color { r: 128, g: 128, b: 128 },
            Tile::Wall => Color { r: 0, g: 0, b: 0 },
            Tile::Gravel => Color { r: 100, g: 100, b: 100 },
            Tile::Dirt => Color { r: 255, g: 0, b: 0 },
            Tile::Ice => Color { r: 0, g: 0, b: 255 },
        }
    }
}

/// The mapping that an association list of cells and tiles denotes: later
/// entries shadow earlier ones, though a well-formed list has unique keys.
pub open spec fn terrain_map(s: Seq<(Cell, Tile)>) -> Map<Cell, Tile>
    decreases s.len(),
{
    if s.len() == 0 {
        Map::empty()
    } else {
        terrain_map(s.drop_last()).insert(s.last().0, s.last().1)
    }
}

/// Whether no two entries of the list bind the same cell.
pub open spec fn unique_keys(s: Seq<(Cell, Tile)>) -> bool {
    forall|i: int, j: int| 0 <= i < j < s.len() ==> (#[trigger] s[i]).0 != (#[trigger] s[j]).0
}

/// A cell of the denoted mapping comes from some entry of the list.
pub proof fn lemma_terrain_map_domain(s: Seq<(Cell, Tile)>, c: Cell)
    ensures
        terrain_map(s).contains_key(c) <==> exists|i: int| 0 <= i < s.len() && (#[trigger] s[i]).0 == c,
    decreases s.len(),
{
    if s.len() > 0 {
        lemma_terrain_map_domain(s.drop_last(), c);
        if s.last().0 == c {
            assert(s[s.len() - 1].0 == c);
        } else if terrain_map(s).contains_key(c) {
            let i = choose|i: int| 0 <= i < s.drop_last().len() && (#[trigger] s.drop_last()[i]).0 == c;
            assert(s[i].0 == c);
        } else {
            assert forall|i: int| 0 <= i < s.len() && (#[trigger] s[i]).0 == c implies false by {
                assert(i < s.len() - 1 ==> s.drop_last()[i].0 == c);
            }
        }
    }
}

/// With unique keys, each entry of the list is what the denoted mapping binds.
pub proof fn lemma_terrain_map_at(s: Seq<(Cell, Tile)>, i: int)
    requires
        unique_keys(s),
        0 <= i < s.len(),
    ensures
        terrain_map(s).contains_key(s[i].0),
        terrain_map(s)[s[i].0] == s[i].1,
    decreases s.len(),
{
    if i == s.len() - 1 {
    } else {
        assert(unique_keys(s.drop_last()));
        lemma_terrain_map_at(s.drop_last(), i);
        assert(s.drop_last()[i] == s[i]);
        assert(s[i].0 != s.last().0);
    }
}

/// Represent the map and the objects/players on it
#[derive(Debug, Clone)]
pub struct GameMap {
    terrain: Vec<(Cell, Tile)>,
    default_tile: Tile,
}

impl GameMap {
    /// The explicitly set entries, in insertion order.
    pub closed spec fn entries(&self) -> Seq<(Cell, Tile)> {
        self.terrain@
    }

    /// The tile value that unset cells take.
    pub closed spec fn spec_default_tile(&self) -> Tile {
        self.default_tile
    }

    /// The mapping from explicitly set cells to their tiles.
    pub open spec fn contents(&self) -> Map<Cell, Tile> {
        terrain_map(self.entries())
    }

    /// Each explicitly set cell is held by exactly one entry, and unset
    /// cells read as the empty tile.
    pub open spec fn wf(&self) -> bool {
        unique_keys(self.entries()) && self.spec_default_tile() == Tile::Empty
    }

    /// The tile of any cell: the set value, or the default for unset cells.
    pub open spec fn spec_tile_at(&self, position: Cell) -> Tile {
        if self.contents().contains_key(position) {
            self.contents()[position]
        } else {
            self.spec_default_tile()
        }
    }

    /// Create a new empty map
    pub fn empty() -> (r: Self)
        ensures
            r.wf(),
            r.contents() == Map::<Cell, Tile>::empty(),
            r.entries().len() == 0,
            r.spec_default_tile() == Tile::Empty,
    {
        GameMap { terrain: Vec::new(), default_tile: Tile::Empty }
    }

    /// Set tile infos, return true if the tile has been changed (new is not equal to former)
    pub fn set_tile(&mut self, position: Cell, tile: Tile) -> (changed: bool)
        requires
            old(self).wf(),
        ensures
            final(self).wf(),
            final(self).contents() == old(self).contents().insert(position, tile),
            final(self).spec_default_tile() == old(self).spec_default_tile(),
            changed == !(old(self).contents().contains_key(position)
                && old(self).contents()[position] == tile),
            final(self).entries().len() <= old(self).entries().len() + 1,
            !changed ==> *final(self) == *old(self),
            forall|k: int|
                0 <= k < final(self).entries().len() ==> (#[trigger] final(self).entries()[k]).0
                    == position || (k < old(self).entries().len() && final(self).entries()[k].0
                    == old(self).entries()[k].0),
    {
        let n = self.terrain.len();
        let mut i: usize = 0;
        while i < n
            invariant
                self == old(self),
                n == self.terrain.len(),
                i <= n,
                self.wf(),
                forall|k: int| 0 <= k < i ==> (#[trigger] self.terrain@[k]).0 != position,
            decreases n - i,
        {
            if self.terrain[i].0 == position {
                proof {
                    lemma_terrain_map_at(old(self).entries(), i as int);
                }
                if self.terrain[i].1 == tile {
                    proof {
                        assert(old(self).contents() =~= old(self).contents().insert(
                            position,
                            tile,
                        ));
                    }
                    return false;
                }
                self.terrain[i] = (position, tile);
                proof {
                    let s_old = old(self).entries();
                    let s_new = self.entries();
                    assert(s_new =~= s_old.update(i as int, (position, tile)));
                    lemma_terrain_map_update(s_old, i as int, tile);
                    assert(self.contents() =~= old(self).contents().insert(position, tile));
                }
                return true;
            }
            i += 1;
        }
        self.terrain.push((position, tile));
        proof {
            let s_old = old(self).entries();
            let s_new = self.entries();
            assert(s_new.drop_last() =~= s_old);
            assert(self.contents() == terrain_map(s_old).insert(position, tile));
            lemma_terrain_map_domain(s_old, position);
            assert(forall|k: int| 0 <= k < s_old.len() ==> (#[trigger] s_old[k]).0 != position);
            assert(!old(self).contents().contains_key(position));
        }
        true
    }

    /// Get tile infos from its position
    pub fn get_tile(&self, position: Cell) -> (r: Tile)
        requires
            self.wf(),
        ensures
            r == self.spec_tile_at(position),
    {
        let n = self.terrain.len();
        let mut i: usize = 0;
        while i < n
            invariant
                n == self.terrain.len(),
                i <= n,
                self.wf(),
                forall|k: int| 0 <= k < i ==> (#[trigger] self.terrain@[k]).0 != position,
            decreases n - i,
        {
            if self.terrain[i].0 == position {
                proof {
                    lemma_terrain_map_at(self.entries(), i as int);
                }
                return self.terrain[i].1;
            }
            i += 1;
        }
        proof {
            lemma_terrain_map_domain(self.entries(), position);
        }
        self.default_tile
    }

    /// Iterate over every tile in the map
    pub fn iter_tiles(&self) -> (r: Vec<((i32, i32), Tile)>)
        ensures
            r@.len() == self.entries().len(),
            forall|i: int|
                0 <= i < r@.len() ==> #[trigger] r@[i] == (
                    (self.entries()[i].0.0, self.entries()[i].0.1),
                    self.entries()[i].1,
                ),
    {
        let n = self.terrain.len();
        let mut r: Vec<((i32, i32), Tile)> = Vec::new();
        let mut i: usize = 0;
        while i < n
            invariant
                n == self.terrain.len(),
                i <= n,
                r@.len() == i,
                forall|k: int|
                    0 <= k < i ==> #[trigger] r@[k] == (
                        (self.terrain@[k].0.0, self.terrain@[k].0.1),
                        self.terrain@[k].1,
                    ),
            decreases n - i,
        {
            let (cell, tile) = self.terrain[i];
            r.push(((cell.0, cell.1), tile));
            i += 1;
        }
        r
    }
}

/// Updating the entry of a key leaves the denoted mapping as if that key had
/// simply been inserted with the new value.
proof fn lemma_terrain_map_update(s: Seq<(Cell, Tile)>, i: int, tile: Tile)
    requires
        unique_keys(s),
        0 <= i < s.len(),
    ensures
        terrain_map(s.update(i, (s[i].0, tile))) == terrain_map(s).insert(s[i].0, tile),
    decreases s.len(),
{
    let c = s[i].0;
    let s2 = s.update(i, (c, tile));
    if i == s.len() - 1 {
        assert(s2.drop_last() =~= s.drop_last());
        assert(s2.last() == (c, tile));
        assert(terrain_map(s2) == terrain_map(s.drop_last()).insert(c, tile));
        assert(terrain_map(s) == terrain_map(s.drop_last()).insert(c, s.last().1));
        assert(terrain_map(s2) =~= terrain_map(s).insert(c, tile));
    } else {
        assert(unique_keys(s.drop_last()));
        assert(s.drop_last()[i] == s[i]);
        lemma_terrain_map_update(s.drop_last(), i, tile);
        assert(s2.drop_last() =~= s.drop_last().update(i, (c, tile)));
        assert(s2.last() == s.last());
        assert(terrain_map(s2) == terrain_map(s.drop_last().update(i, (c, tile))).insert(
            s.last().0,
            s.last().1,
        ));
        assert(c != s.last().0);
        assert(terrain_map(s2) =~= terrain_map(s).insert(c, tile));
    }
}

} // verus!
