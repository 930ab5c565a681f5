//! The static tile grid of a map.
use vstd::prelude::*;

use crate::geometry::{Vector2, UNIT};

verus! {

/// Tiles at this row or column or beyond lie far outside any place a tank or a
/// bullet can reach, so collisions pass them by; every tile corner that
/// collisions use then fits in fixed-point coordinates.
pub const MAX_GRID: usize = 1_000_000;

/// Ground or wall object that is drawn and that tanks and bullets collide with.
#[derive(Clone, Copy, Debug, PartialEq, Eq, Structural)]
pub enum Tile {
    Empty,
    DestructibleWall { health: u32, elevation: u32 },
    IndestructibleWall { elevation: u32 },
}

/// A tile at a grid position.
#[derive(Clone, Copy, Debug, PartialEq, Eq, Structural)]
pub struct PlacedTile {
    pub row: usize,
    pub col: usize,
    pub tile: Tile,
}

/// Mapping from grid coordinate (row, col) to tile, held as a list of placed
/// tiles with distinct positions.
#[derive(Clone, Debug)]
pub struct Environment {
    pub tiles: Vec<PlacedTile>,
}

/// Placed tiles with distinct positions.
pub open spec fn tiles_wf(tiles: Seq<PlacedTile>) -> bool {
    forall|i: int, j: int|
        0 <= i < j < tiles.len() ==> !(tiles[i].row == tiles[j].row && tiles[i].col == tiles[j].col)
}

/// The tile stands in the way of tanks and bullets: a destructible wall at
/// ground elevation.
pub open spec fn is_obstacle(t: Tile) -> bool {
    match t {
        Tile::DestructibleWall { elevation, .. } => elevation == 0,
        _ => false,
    }
}

/// The placed tile stops tanks and bullets: an obstacle within reach.
pub open spec fn blocks(t: PlacedTile) -> bool {
    is_obstacle(t.tile) && t.row < MAX_GRID && t.col < MAX_GRID
}

/// Top-left corner of a tile: columns run along x, rows along y.
pub open spec fn tile_corner(t: PlacedTile) -> Vector2 {
    Vector2 { x: (t.col * UNIT) as i64, y: (t.row * UNIT) as i64 }
}

/// The tile placed at `(row, col)`, if any.
pub open spec fn tile_at(tiles: Seq<PlacedTile>, row: int, col: int) -> Option<Tile> {
    if exists|i: int| 0 <= i < tiles.len() && tiles[i].row == row && tiles[i].col == col {
        let i = choose|i: int| 0 <= i < tiles.len() && tiles[i].row == row && tiles[i].col == col;
        Some(tiles[i].tile)
    } else {
        None
    }
}

impl View for Environment {
    type V = Seq<PlacedTile>;

    open spec fn view(&self) -> Seq<PlacedTile> {
        self.tiles@
    }
}

impl Environment {
    pub open spec fn wf(&self) -> bool {
        tiles_wf(self@)
    }

    /// An environment with no tiles.
    pub fn new() -> (r: Environment)
        ensures
            r@ == Seq::<PlacedTile>::empty(),
            r.wf(),
    {
        Environment { tiles: Vec::new() }
    }

    /// A copy of this environment.
    pub fn duplicate(&self) -> (r: Environment)
        ensures
            r@ == self@,
    {
        let mut tiles: Vec<PlacedTile> = Vec::new();
        let mut i: usize = 0;
        while i < self.tiles.len()
            invariant
                i <= self@.len(),
                tiles@ == self@.subrange(0, i as int),
            decreases self@.len() - i,
        {
            tiles.push(self.tiles[i]);
            i = i + 1;
            proof {
                assert(tiles@ =~= self@.subrange(0, i as int));
            }
        }
        proof {
            assert(self@.subrange(0, self@.len() as int) =~= self@);
        }
        Environment { tiles }
    }

    /// Index of the tile placed at `(row, col)`.
    fn position_of(&self, row: usize, col: usize) -> (r: Option<usize>)
        requires
            self.wf(),
        ensures
            r matches Some(i) ==> i < self@.len() && self@[i as int].row == row && self@[i as int].col == col,
            r is None ==> forall|i: int| 0 <= i < self@.len() ==> !(self@[i].row == row && self@[i].col == col),
    {
        let mut i: usize = 0;
        while i < self.tiles.len()
            invariant
                i <= self@.len(),
                forall|k: int| 0 <= k < i ==> !(self@[k].row == row && self@[k].col == col),
            decreases self@.len() - i,
        {
            if self.tiles[i].row == row && self.tiles[i].col == col {
                return Some(i);
            }
            i = i + 1;
        }
        None
    }

    /// Places `tile` at `(row, col)`, replacing what stood there.
    pub fn insert_tile(&mut self, row: usize, col: usize, tile: Tile)
        requires
            old(self).wf(),
        ensures
            final(self).wf(),
            tile_at(final(self)@, row as int, col as int) == Some(tile),
            forall|r: int, c: int| !(r == row && c == col) ==> tile_at(final(self)@, r, c) == tile_at(old(self)@, r, c),
    {
        let placed = PlacedTile { row, col, tile };
        match self.position_of(row, col) {
            Some(i) => {
                self.tiles.set(i, placed);
                proof {
                    let s = self@;
                    assert(s[i as int] == placed);
                    assert forall|r: int, c: int| #[trigger] tile_at(s, r, c) == if r == row && c == col { Some(tile) } else { tile_at(old(self)@, r, c) } by {
                        if r == row && c == col {
                            assert(s[i as int].row == r && s[i as int].col == c);
                            let j = choose|j: int| 0 <= j < s.len() && s[j].row == r && s[j].col == c;
                            assert(j == i as int);
                        } else {
                            let o = old(self)@;
                            assert forall|j: int| 0 <= j < s.len() implies ((s[j].row == r && s[j].col == c) == (o[j].row == r && o[j].col == c)) && (j != i as int ==> s[j] == o[j]) by {
                            }
                            if exists|j: int| 0 <= j < s.len() && s[j].row == r && s[j].col == c {
                                let j = choose|j: int| 0 <= j < s.len() && s[j].row == r && s[j].col == c;
                                assert(o[j].row == r && o[j].col == c);
                                let k = choose|k: int| 0 <= k < o.len() && o[k].row == r && o[k].col == c;
                                assert(k == j);
                                assert(j != i as int);
                            } else {
                                assert forall|j: int| 0 <= j < o.len() implies !(o[j].row == r && o[j].col == c) by {
                                    assert(!(s[j].row == r && s[j].col == c));
                                }
                            }
                        }
                    }
                }
            },
            None => {
                self.tiles.push(placed);
                proof {
                    let s = self@;
                    let o = old(self)@;
                    assert(s.len() == o.len() + 1);
                    assert forall|r: int, c: int| #[trigger] tile_at(s, r, c) == if r == row && c == col { Some(tile) } else { tile_at(o, r, c) } by {
                        if r == row && c == col {
                            assert(s[o.len() as int].row == r && s[o.len() as int].col == c);
                            let j = choose|j: int| 0 <= j < s.len() && s[j].row == r && s[j].col == c;
                            assert(j == o.len());
                        } else {
                            if exists|j: int| 0 <= j < s.len() && s[j].row == r && s[j].col == c {
                                let j = choose|j: int| 0 <= j < s.len() && s[j].row == r && s[j].col == c;
                                assert(j < o.len());
                                assert(o[j] == s[j]);
                                let k = choose|k: int| 0 <= k < o.len() && o[k].row == r && o[k].col == c;
                                assert(s[k] == o[k]);
                                assert(k == j);
                            } else {
                                assert forall|j: int| 0 <= j < o.len() implies !(o[j].row == r && o[j].col == c) by {
                                    assert(s[j] == o[j]);
                                }
                            }
                        }
                    }
                }
            },
        }
    }

    /// The tile at `(row, col)`, if one was placed there.
    pub fn get_tile(&self, row: usize, col: usize) -> (r: Option<Tile>)
        requires
            self.wf(),
        ensures
            r == tile_at(self@, row as int, col as int),
    {
        match self.position_of(row, col) {
            Some(i) => {
                proof {
                    let j = choose|j: int| 0 <= j < self@.len() && self@[j].row == row && self@[j].col == col;
                    assert(j == i as int);
                }
                Some(self.tiles[i].tile)
            },
            None => None,
        }
    }
}

} // verus!
