use vstd::prelude::*;

use crate::components::Position;

verus! {

/// The tile that entities can walk on.
pub const FLOOR: char = '.';

/// The tile that blocks movement.
pub const WALL: char = '#';

/// An immutable grid of tiles, stored row by row.
#[derive(Debug)]
pub struct TileMap {
    tiles: Vec<char>,
    stride: usize,
}

/// Where `(x, y)` lies in a grid of `len` tiles with rows of `w` tiles, if `w` is not zero.
proof fn lemma_cell_in_bounds(len: int, w: int, x: int, y: int)
    requires
        0 < w,
        0 <= len,
        0 <= x < w,
        0 <= y < len / w,
    ensures
        0 <= y * w + x < len,
        (y * w + x) < (len / w) * w,
{
    vstd::arithmetic::div_mod::lemma_fundamental_div_mod(len, w);
    let q = len / w;
    let r = len % w;
    assert(0 <= r) by {
        vstd::arithmetic::div_mod::lemma_mod_pos_bound(len, w);
    }
    assert(y * w + x < q * w) by (nonlinear_arith)
        requires
            y + 1 <= q,
            0 <= x < w,
            0 < w,
            0 <= y,
    ;
    assert(0 <= y * w) by (nonlinear_arith)
        requires
            0 <= y,
            0 < w,
    ;
    assert(q * w == w * q) by (nonlinear_arith);
}

impl View for TileMap {
    /// The tiles, row after row, and the length of a row.
    type V = (Seq<char>, nat);

    closed spec fn view(&self) -> (Seq<char>, nat) {
        (self.tiles@, self.stride as nat)
    }
}

impl TileMap {
    /// The number of tiles in a row.
    pub open spec fn width(&self) -> nat {
        self@.1
    }

    /// The number of complete rows.
    pub open spec fn height(&self) -> nat {
        if self.width() == 0 {
            0
        } else {
            self@.0.len() / self.width()
        }
    }

    /// The index of the tile at `(x, y)` in the row-by-row sequence.
    pub open spec fn index_of(&self, x: int, y: int) -> int {
        y * self.width() + x
    }

    /// Whether `(x, y)` lies on the grid.
    pub open spec fn in_bounds(&self, x: int, y: int) -> bool {
        0 <= x < self.width() && 0 <= y < self.height()
    }

    /// Whether `(x, y)` lies on the grid and holds a floor tile.
    pub open spec fn walkable(&self, x: int, y: int) -> bool {
        self.in_bounds(x, y) && self@.0[self.index_of(x, y)] == FLOOR
    }

    /// Whether some tile of the grid is walkable.
    pub open spec fn has_walkable_tile(&self) -> bool {
        exists|x: int, y: int| self.walkable(x, y)
    }

    /// The grid's dimensions fit in `usize`.
    pub proof fn lemma_size_bounds(&self)
        ensures
            self.width() <= usize::MAX,
            self@.0.len() <= usize::MAX,
            self.height() <= self@.0.len(),
    {
        assert(self.tiles.len() == self.tiles@.len());
        if self.width() > 0 {
            vstd::arithmetic::div_mod::lemma_div_nonincreasing(
                self@.0.len() as int,
                self.width() as int,
            );
        }
    }

    /// Two tiles of the grid with the same index are the same tile.
    pub proof fn lemma_index_injective(&self, x1: int, y1: int, x2: int, y2: int)
        requires
            self.in_bounds(x1, y1),
            self.in_bounds(x2, y2),
            self.index_of(x1, y1) == self.index_of(x2, y2),
        ensures
            x1 == x2 && y1 == y2,
    {
        let w = self.width() as int;
        if y1 < y2 {
            assert(y1 * w + x1 < y2 * w + x2) by (nonlinear_arith)
                requires
                    y1 < y2,
                    0 <= x1 < w,
                    0 <= x2,
                    0 < w,
            ;
        } else if y2 < y1 {
            assert(y2 * w + x2 < y1 * w + x1) by (nonlinear_arith)
                requires
                    y2 < y1,
                    0 <= x2 < w,
                    0 <= x1,
                    0 < w,
            ;
        }
    }

    pub proof fn lemma_in_bounds_index(&self, x: int, y: int)
        requires
            self.in_bounds(x, y),
        ensures
            0 <= self.index_of(x, y) < self@.0.len(),
            self.index_of(x, y) < self.height() * self.width(),
    {
        lemma_cell_in_bounds(self@.0.len() as int, self.width() as int, x, y);
    }

    pub fn new(width: usize, height: usize) -> (r: Self)
        requires
            width * height <= usize::MAX,
        ensures
            r.width() == width,
            r@.0 == Seq::new((width * height) as nat, |i: int| WALL),
    {
        let n: usize = width * height;
        let tiles = vec![WALL; n];
        let r = TileMap { tiles, stride: width };
        assert(r@.0 =~= Seq::new((width * height) as nat, |i: int| WALL));
        r
    }

    pub fn get_tile(&self, idx: usize) -> (r: Option<char>)
        ensures
            r == (if idx < self@.0.len() {
                Some(self@.0[idx as int])
            } else {
                None
            }),
    {
        if idx < self.tiles.len() {
            Some(self.tiles[idx])
        } else {
            None
        }
    }

    /// Replaces the tile at `(x, y)`; a coordinate off the grid changes nothing.
    pub fn set_tile(&mut self, x: usize, y: usize, tile: char)
        ensures
            final(self).width() == old(self).width(),
            final(self)@.0.len() == old(self)@.0.len(),
            final(self)@.0 == (if old(self).in_bounds(x as int, y as int) {
                old(self)@.0.update(old(self).index_of(x as int, y as int), tile)
            } else {
                old(self)@.0
            }),
    {
        if x < self.stride && y < self.rows() {
            proof {
                self.lemma_in_bounds_index(x as int, y as int);
                assert(self.tiles.len() == self.tiles@.len());
            }
            let idx = self.xy_idx(x, y);
            self.tiles.set(idx, tile);
        }
    }

    pub fn xy_idx(&self, x: usize, y: usize) -> (r: usize)
        requires
            self.index_of(x as int, y as int) <= usize::MAX,
        ensures
            r == self.index_of(x as int, y as int),
    {
        assert(0 <= y * self.stride) by (nonlinear_arith);
        y * self.stride + x
    }

    /// The row and the column of the tile at `idx`.
    pub fn idx_xy(&self, idx: usize) -> (r: (usize, usize))
        requires
            self.width() > 0,
        ensures
            r.0 as int == idx as int / self.width() as int,
            r.1 as int == idx as int % self.width() as int,
    {
        let row = idx / self.columns();
        let column = idx % self.columns();
        (row, column)
    }

    pub fn rows(&self) -> (r: usize)
        ensures
            r == self.height(),
    {
        if self.stride == 0 {
            0
        } else {
            self.tiles.len() / self.stride
        }
    }

    pub fn columns(&self) -> (r: usize)
        ensures
            r == self.width(),
    {
        self.stride
    }

    pub fn is_walkable(&self, x: usize, y: usize) -> (r: bool)
        ensures
            r == self.walkable(x as int, y as int),
    {
        if x < self.stride && y < self.rows() {
            proof {
                self.lemma_in_bounds_index(x as int, y as int);
                assert(self.tiles.len() == self.tiles@.len());
            }
            let idx = self.xy_idx(x, y);
            self.tiles[idx] == FLOOR
        } else {
            false
        }
    }

    pub fn get_tiles(&self) -> (r: &[char])
        ensures
            r@ == self@.0,
    {
        self.tiles.as_slice()
    }

    /// Every walkable tile, row by row.
    pub fn walkable_positions(&self) -> (r: Vec<Position>)
        ensures
            forall|i: int| 0 <= i < r@.len() ==> self.walkable(r@[i].x as int, r@[i].y as int),
            forall|x: int, y: int|
                #![trigger self.walkable(x, y)]
                self.walkable(x, y) ==> r@.contains(Position { x: x as usize, y: y as usize }),
    {
        let mut r: Vec<Position> = Vec::new();
        let rows = self.rows();
        let w = self.stride;
        let mut y: usize = 0;
        while y < rows
            invariant
                rows == self.height(),
                w == self.width(),
                y <= rows,
                forall|i: int| 0 <= i < r@.len() ==> self.walkable(r@[i].x as int, r@[i].y as int),
                forall|a: int, b: int|
                    #![trigger self.walkable(a, b)]
                    self.walkable(a, b) && b < y ==> r@.contains(Position { x: a as usize, y: b as usize }),
            decreases rows - y,
        {
            let mut x: usize = 0;
            while x < w
                invariant
                    rows == self.height(),
                    w == self.width(),
                    y < rows,
                    x <= w,
                    forall|i: int| 0 <= i < r@.len() ==> self.walkable(r@[i].x as int, r@[i].y as int),
                    forall|a: int, b: int|
                        #![trigger self.walkable(a, b)]
                        self.walkable(a, b) && (b < y || (b == y && a < x)) ==> r@.contains(
                            Position { x: a as usize, y: b as usize },
                        ),
                decreases w - x,
            {
                if self.is_walkable(x, y) {
                    let ghost before = r@;
                    r.push(Position::new(x, y));
                    assert forall|a: int, b: int|
                        #![trigger self.walkable(a, b)]
                        self.walkable(a, b) && (b < y || (b == y && a < x + 1)) implies r@.contains(
                            Position { x: a as usize, y: b as usize },
                        ) by {
                        if b == y && a == x {
                            assert(r@[r@.len() - 1] == Position { x: a as usize, y: b as usize });
                        } else {
                            let k = choose|k: int|
                                0 <= k < before.len() && before[k] == Position {
                                    x: a as usize,
                                    y: b as usize,
                                };
                            assert(r@[k] == before[k]);
                        }
                    }
                }
                x = x + 1;
            }
            y = y + 1;
        }
        r
    }
}

} // verus!
