//! The shared spatial map: the tile grid, the per-tile blocking and occupant
//! index rebuilt every tick, the player-centric visibility layers, and the
//! cosmetic bloodstain markers.
use vstd::prelude::*;
use vstd::pervasive::VecAdditionalExecFns;
use crate::components::Pt;

verus! {

/// Largest width or height of a map.
pub const MAX_DIM: i32 = 4096;

/// What a tile is made of. Walls block both movement and sight.
#[derive(Clone, Copy, PartialEq, Eq, Structural, Debug)]
pub enum TileType {
    Wall,
    Floor,
    DownStairs,
}

/// An axis-aligned rectangular region of the map, as the dungeon generator
/// hands them over.
#[derive(Clone, Copy, PartialEq, Eq, Structural, Debug)]
pub struct Rect {
    pub x1: i32,
    pub y1: i32,
    pub x2: i32,
    pub y2: i32,
}

impl Rect {
    /// Midpoint of the region, rounding down.
    pub fn center(&self) -> (c: (i32, i32))
        requires
            0 <= self.x1 <= self.x2 <= MAX_DIM,
            0 <= self.y1 <= self.y2 <= MAX_DIM,
        ensures
            c.0 == (self.x1 + self.x2) / 2,
            c.1 == (self.y1 + self.y2) / 2,
    {
        ((self.x1 + self.x2) / 2, (self.y1 + self.y2) / 2)
    }
}

/// An in-bounds coordinate has an in-range row-major index.
pub proof fn lemma_idx_bounds(width: int, height: int, x: int, y: int)
    requires
        1 <= width <= MAX_DIM,
        1 <= height <= MAX_DIM,
        0 <= x < width,
        0 <= y < height,
    ensures
        0 <= y * width + x < width * height,
        width * height <= 0x1000000,
{
    assert(0 <= y * width + x < width * height && width * height <= 0x1000000)
        by (nonlinear_arith)
        requires
            1 <= width <= 0x1000,
            1 <= height <= 0x1000,
            0 <= x < width,
            0 <= y < height,
    ;
}

/// In a positive grid, the row-major index of an in-bounds coordinate
/// decomposes back into that coordinate.
pub proof fn lemma_rowmajor(width: int, x: int, y: int)
    requires
        1 <= width,
        0 <= x < width,
        0 <= y,
    ensures
        (y * width + x) % width == x,
        (y * width + x) / width == y,
{
    let j = y * width + x;
    vstd::arithmetic::div_mod::lemma_fundamental_div_mod_converse(j, width, y, x);
}

/// An in-range row-major index decomposes into an in-bounds coordinate.
pub proof fn lemma_idx_decompose(width: int, height: int, j: int)
    requires
        1 <= width,
        1 <= height,
        0 <= j < width * height,
    ensures
        0 <= j % width < width,
        0 <= j / width < height,
        width * (j / width) + j % width == j,
{
    vstd::arithmetic::div_mod::lemma_fundamental_div_mod(j, width);
    vstd::arithmetic::div_mod::lemma_mod_bound(j, width);
    let q = j / width;
    let r = j % width;
    assert(0 <= q < height) by (nonlinear_arith)
        requires
            1 <= width,
            1 <= height,
            0 <= j < width * height,
            j == width * q + r,
            0 <= r < width,
    ;
}

/// The grid of tiles together with every per-tile layer the phases share:
/// the blocking flag and occupant list rebuilt each tick, the tiles the
/// player has ever seen and currently sees, and bloodstain markers.
pub struct SpatialMap {
    pub tiles: Vec<TileType>,
    pub width: i32,
    pub height: i32,
    pub blocked: Vec<bool>,
    pub tile_content: Vec<Vec<usize>>,
    pub revealed_tiles: Vec<bool>,
    pub visible_tiles: Vec<bool>,
    pub bloodstains: Vec<bool>,
    pub rooms: Vec<Rect>,
    pub depth: i32,
}

impl SpatialMap {
    /// Number of tiles.
    pub open spec fn area(self) -> int {
        self.width * self.height
    }

    /// Row-major index of a coordinate.
    pub open spec fn idx_of(self, x: int, y: int) -> int {
        y * self.width + x
    }

    pub open spec fn in_bounds_spec(self, x: int, y: int) -> bool {
        0 <= x < self.width && 0 <= y < self.height
    }

    pub open spec fn pt_in_bounds(self, p: Pt) -> bool {
        self.in_bounds_spec(p.x as int, p.y as int)
    }

    /// Dimensions are positive and modest, and every per-tile layer has
    /// exactly one slot per tile.
    pub open spec fn wf(self) -> bool {
        &&& 1 <= self.width <= MAX_DIM
        &&& 1 <= self.height <= MAX_DIM
        &&& self.tiles@.len() == self.area()
        &&& self.blocked@.len() == self.area()
        &&& self.tile_content@.len() == self.area()
        &&& self.revealed_tiles@.len() == self.area()
        &&& self.visible_tiles@.len() == self.area()
        &&& self.bloodstains@.len() == self.area()
    }

    pub fn in_bounds(&self, x: i32, y: i32) -> (r: bool)
        ensures
            r == self.in_bounds_spec(x as int, y as int),
    {
        0 <= x && x < self.width && 0 <= y && y < self.height
    }

    /// Row-major index of an in-bounds coordinate.
    pub fn get_index_at(&self, x: i32, y: i32) -> (r: usize)
        requires
            self.wf(),
            self.in_bounds_spec(x as int, y as int),
        ensures
            r == self.idx_of(x as int, y as int),
            r < self.area(),
    {
        proof {
            lemma_idx_bounds(self.width as int, self.height as int, x as int, y as int);
        }
        (y as usize) * (self.width as usize) + (x as usize)
    }

    /// Coordinate of a row-major index.
    pub fn get_xy_from_idx(&self, idx: usize) -> (r: (i32, i32))
        requires
            self.wf(),
            idx < self.area(),
        ensures
            self.idx_of(r.0 as int, r.1 as int) == idx,
            self.in_bounds_spec(r.0 as int, r.1 as int),
    {
        proof {
            lemma_idx_decompose(self.width as int, self.height as int, idx as int);
        }
        let x = (idx % (self.width as usize)) as i32;
        let y = (idx / (self.width as usize)) as i32;
        proof {
            let w = self.width as int;
            let j = idx as int;
            assert(x as int == j % w && y as int == j / w);
            assert((y as int) * w == w * (y as int)) by (nonlinear_arith);
            assert(self.idx_of(x as int, y as int) == j);
        }
        (x, y)
    }

    /// Whether movement into an in-bounds tile is currently barred.
    pub fn is_blocked(&self, idx: usize) -> (r: bool)
        requires
            idx < self.blocked@.len(),
        ensures
            r == self.blocked@[idx as int],
    {
        self.blocked[idx]
    }

    /// Walls bar movement; recompute the blocking layer from the tiles
    /// alone, forgetting every entity-induced block.
    pub fn populate_blocked(&mut self)
        requires
            old(self).wf(),
        ensures
            final(self).wf(),
            forall|i: int|
                0 <= i < final(self).area() ==> final(self).blocked@[i] == (final(self).tiles@[i]
                    == TileType::Wall),
            *final(self) == (SpatialMap { blocked: final(self).blocked, ..*old(self) }),
    {
        let n = self.tiles.len();
        let mut i: usize = 0;
        while i < n
            invariant
                i <= n,
                n == self.area(),
                self.wf(),
                *self == (SpatialMap { blocked: self.blocked, ..*old(self) }),
                forall|j: int|
                    0 <= j < i ==> self.blocked@[j] == (self.tiles@[j] == TileType::Wall),
            decreases n - i,
        {
            let w = self.tiles[i] == TileType::Wall;
            self.blocked.set(i, w);
            i += 1;
        }
    }

    /// Empty every tile's occupant list.
    pub fn clear_content_index(&mut self)
        requires
            old(self).wf(),
        ensures
            final(self).wf(),
            forall|i: int| 0 <= i < final(self).area() ==> final(self).tile_content@[i]@.len() == 0,
            *final(self) == (SpatialMap { tile_content: final(self).tile_content, ..*old(self) }),
    {
        let n = self.tile_content.len();
        let mut i: usize = 0;
        while i < n
            invariant
                i <= n,
                n == self.area(),
                self.wf(),
                *self == (SpatialMap { tile_content: self.tile_content, ..*old(self) }),
                forall|j: int| 0 <= j < i ==> self.tile_content@[j]@.len() == 0,
            decreases n - i,
        {
            self.tile_content.set(i, Vec::new());
            i += 1;
        }
    }

    /// Append an entity to an in-bounds tile's occupant list.
    pub fn push_content(&mut self, idx: usize, e: usize)
        requires
            old(self).wf(),
            idx < old(self).area(),
        ensures
            final(self).wf(),
            final(self).tile_content@.len() == old(self).tile_content@.len(),
            final(self).tile_content@[idx as int]@ == old(self).tile_content@[idx as int]@.push(e),
            forall|j: int|
                0 <= j < final(self).area() && j != idx ==> final(self).tile_content@[j] == old(
                    self,
                ).tile_content@[j],
            *final(self) == (SpatialMap { tile_content: final(self).tile_content, ..*old(self) }),
    {
        let mut row: Vec<usize> = Vec::new();
        self.tile_content.set_and_swap(idx, &mut row);
        row.push(e);
        self.tile_content.set_and_swap(idx, &mut row);
    }

    /// A fresh map of the given size: floor everywhere, walls along the
    /// boundary, every per-tile layer cleared.
    pub fn new(width: i32, height: i32, depth: i32) -> (m: SpatialMap)
        requires
            1 <= width <= MAX_DIM,
            1 <= height <= MAX_DIM,
        ensures
            m.wf(),
            m.width == width,
            m.height == height,
            m.depth == depth,
            m.rooms@.len() == 0,
            forall|j: int|
                0 <= j < m.area() ==> m.tiles@[j] == (if is_boundary(width as int, height as int, j) {
                    TileType::Wall
                } else {
                    TileType::Floor
                }),
            forall|i: int| 0 <= i < m.area() ==> !m.blocked@[i],
            forall|i: int| 0 <= i < m.area() ==> m.tile_content@[i]@.len() == 0,
            forall|i: int| 0 <= i < m.area() ==> !m.revealed_tiles@[i],
            forall|i: int| 0 <= i < m.area() ==> !m.visible_tiles@[i],
            forall|i: int| 0 <= i < m.area() ==> !m.bloodstains@[i],
    {
        proof {
            lemma_idx_bounds(width as int, height as int, width - 1, height - 1);
        }
        let area = (width as usize) * (height as usize);
        let mut tiles: Vec<TileType> = Vec::new();
        let mut i: usize = 0;
        while i < area
            invariant
                i <= area,
                area == width * height,
                tiles@.len() == i,
                forall|j: int|
                    0 <= j < i ==> tiles@[j] == (if is_boundary(width as int, height as int, j) {
                        TileType::Wall
                    } else {
                        TileType::Floor
                    }),
            decreases area - i,
        {
            let x = i % (width as usize);
            let y = i / (width as usize);
            if x == 0 || x == (width as usize) - 1 || y == 0 || y == (height as usize) - 1 {
                tiles.push(TileType::Wall);
            } else {
                tiles.push(TileType::Floor);
            }
            i += 1;
        }
        let mut blocked: Vec<bool> = Vec::new();
        let mut tile_content: Vec<Vec<usize>> = Vec::new();
        let mut revealed: Vec<bool> = Vec::new();
        let mut visible: Vec<bool> = Vec::new();
        let mut blood: Vec<bool> = Vec::new();
        let mut k: usize = 0;
        while k < area
            invariant
                k <= area,
                blocked@.len() == k,
                tile_content@.len() == k,
                revealed@.len() == k,
                visible@.len() == k,
                blood@.len() == k,
                forall|j: int| 0 <= j < k ==> !blocked@[j],
                forall|j: int| 0 <= j < k ==> tile_content@[j]@.len() == 0,
                forall|j: int| 0 <= j < k ==> !revealed@[j],
                forall|j: int| 0 <= j < k ==> !visible@[j],
                forall|j: int| 0 <= j < k ==> !blood@[j],
            decreases area - k,
        {
            blocked.push(false);
            tile_content.push(Vec::new());
            revealed.push(false);
            visible.push(false);
            blood.push(false);
            k += 1;
        }
        SpatialMap {
            tiles,
            width,
            height,
            blocked,
            tile_content,
            revealed_tiles: revealed,
            visible_tiles: visible,
            bloodstains: blood,
            rooms: Vec::new(),
            depth,
        }
    }
}

/// Whether row-major index `j` of a `width` by `height` grid lies on the
/// outermost ring.
pub open spec fn is_boundary(width: int, height: int, j: int) -> bool {
    j % width == 0 || j % width == width - 1 || j / width == 0 || j / width == height - 1
}

/// Row-major index of a coordinate on the fixed eighty-column grid the
/// first dungeon revision used.
pub fn get_index_at(x: i32, y: i32) -> (r: usize)
    requires
        0 <= x < 80,
        0 <= y < 50,
    ensures
        r == y * 80 + x,
{
    (y as usize) * 80 + (x as usize)
}

/// A fresh eighty-by-fifty tile grid: floor everywhere, walls along the
/// boundary, and a wall on each listed coordinate except the central
/// starting tile. The caller supplies the coordinates (the original rolls
/// them from a random number generator, which is no concern of the grid's).
pub fn new_map(extra_walls: &Vec<Pt>) -> (map: Vec<TileType>)
    requires
        forall|k: int|
            0 <= k < extra_walls@.len() ==> 0 <= #[trigger] extra_walls@[k].x < 80 && 0
                <= extra_walls@[k].y < 50,
    ensures
        map@.len() == 80 * 50,
        forall|j: int|
            0 <= j < 80 * 50 ==> #[trigger] map@[j] == new_map_tile(extra_walls@, j % 80, j / 80),
{
    let mut map: Vec<TileType> = Vec::new();
    let mut i: usize = 0;
    while i < 80 * 50
        invariant
            i <= 80 * 50,
            map@.len() == i,
            forall|j: int|
                0 <= j < i ==> #[trigger] map@[j] == new_map_tile(Seq::empty(), j % 80, j / 80),
        decreases 80 * 50 - i,
    {
        let x = i % 80;
        let y = i / 80;
        if x == 0 || x == 79 || y == 0 || y == 49 {
            map.push(TileType::Wall);
        } else {
            map.push(TileType::Floor);
        }
        i += 1;
    }
    let n = extra_walls.len();
    let mut k: usize = 0;
    while k < n
        invariant
            k <= n,
            map@.len() == 80 * 50,
            forall|j: int|
                0 <= j < 80 * 50 ==> #[trigger] map@[j] == new_map_tile(
                    extra_walls@.subrange(0, k as int),
                    j % 80,
                    j / 80,
                ),
        decreases n - k,
    {
        let p = extra_walls[k];
        let index = get_index_at(p.x, p.y);
        if index != get_index_at(40, 25) {
            map.set(index, TileType::Wall);
        }
        proof {
            let walls = extra_walls@;
            let pre = walls.subrange(0, k as int);
            let cur = walls.subrange(0, k + 1);
            assert(cur[k as int] == walls[k as int]);
            assert(cur.contains(walls[k as int]));
            assert forall|q: Pt| cur.contains(q) implies pre.contains(q) || q
                == walls[k as int] by {
                let w = choose|w: int| 0 <= w < cur.len() && cur[w] == q;
                if w < pre.len() {
                    assert(pre[w] == q);
                }
            }
            assert forall|q: Pt| pre.contains(q) implies cur.contains(q) by {
                let w = choose|w: int| 0 <= w < pre.len() && pre[w] == q;
                assert(cur[w] == q);
            }
            assert forall|j: int| 0 <= j < 80 * 50 implies #[trigger] map@[j] == new_map_tile(
                cur,
                j % 80,
                j / 80,
            ) by {
                lemma_rowmajor(80, p.x as int, p.y as int);
                if j == p.y * 80 + p.x {
                    assert(j % 80 == p.x && j / 80 == p.y);
                    assert(cur.contains(Pt { x: p.x, y: p.y }));
                } else {
                    assert(!(j % 80 == p.x && j / 80 == p.y)) by {
                        vstd::arithmetic::div_mod::lemma_fundamental_div_mod(j, 80);
                    }
                }
            }
        }
        k += 1;
    }
    proof {
        assert(extra_walls@.subrange(0, n as int) =~= extra_walls@);
    }
    map
}

/// The tile the first dungeon revision's generator puts at a coordinate:
/// a wall on the boundary ring and on every listed coordinate except the
/// protected central starting tile, floor elsewhere.
pub open spec fn new_map_tile(walls: Seq<Pt>, x: int, y: int) -> TileType {
    if x == 0 || x == 79 || y == 0 || y == 49 || (walls.contains(Pt { x: x as i32, y: y as i32 })
        && !(x == 40 && y == 25)) {
        TileType::Wall
    } else {
        TileType::Floor
    }
}

} // verus!
