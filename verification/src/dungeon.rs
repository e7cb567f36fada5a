//! Dungeon levels: the tile grid, procedural generation and the text-art
//! format of custom levels.

use vstd::prelude::*;
use crate::rng::gen_range;
use crate::text::push_char;

verus! {

/// Width of a generated level, in tiles.
pub const MAP_W: usize = 72;
/// Height of a generated level, in tiles.
pub const MAP_H: usize = 54;
/// Positions on a map (the player spawn) are kept in thousandths of a tile.
pub const SUBTILE: i64 = 1000;

/// One cell of the grid.
#[derive(Clone, Copy, PartialEq, Eq, Structural, Debug)]
pub enum Tile {
    Wall,
    Floor,
    /// Mobs will not enter.
    Safe,
    /// A rest spot (also safe).
    Campfire,
    /// Descends to the next depth.
    Stairs,
}

impl Tile {
    pub open spec fn spec_walkable(self) -> bool {
        !(self is Wall)
    }

    pub open spec fn spec_safe(self) -> bool {
        self is Safe || self is Campfire
    }

    /// Everything but a wall can be walked on.
    pub fn walkable(self) -> (b: bool)
        ensures
            b == self.spec_walkable(),
    {
        !matches!(self, Tile::Wall)
    }

    /// Safe floors and campfires keep mobs out.
    pub fn safe(self) -> (b: bool)
        ensures
            b == self.spec_safe(),
    {
        matches!(self, Tile::Safe | Tile::Campfire)
    }
}

/// Rust's integer division by two, which rounds toward zero.
pub open spec fn half(v: int) -> int {
    if v >= 0 { v / 2 } else { -((-v) / 2) }
}

/// The remainder of Rust's `%`, which takes the sign of the dividend.
pub open spec fn rem(a: int, b: int) -> int {
    if a >= 0 { a % b } else { -((-a) % b) }
}

/// Rust's integer division, which rounds toward zero.
pub open spec fn quot(a: int, b: int) -> int {
    if a >= 0 { a / b } else { -((-a) / b) }
}

/// An axis-aligned rectangle of tiles.
#[derive(Clone, Copy, Debug)]
pub struct Room {
    pub x: i32,
    pub y: i32,
    pub w: i32,
    pub h: i32,
}

impl Room {
    pub open spec fn spec_center(self) -> (int, int) {
        (self.x + half(self.w as int), self.y + half(self.h as int))
    }

    /// Whether tile `(px, py)` lies inside the room.
    pub open spec fn contains(self, px: int, py: int) -> bool {
        self.x <= px < self.x + self.w && self.y <= py < self.y + self.h
    }

    /// Whether the two rooms overlap or touch (rooms keep a wall between them).
    pub open spec fn spec_intersects(self, o: Room) -> bool {
        &&& self.x - 1 < o.x + o.w
        &&& self.x + self.w + 1 > o.x
        &&& self.y - 1 < o.y + o.h
        &&& self.y + self.h + 1 > o.y
    }

    /// The center tile (rounding toward the origin corner).
    pub fn center(&self) -> (c: (i32, i32))
        requires
            i32::MIN <= self.x + half(self.w as int) <= i32::MAX,
            i32::MIN <= self.y + half(self.h as int) <= i32::MAX,
        ensures
            c.0 == self.spec_center().0,
            c.1 == self.spec_center().1,
    {
        (self.x + self.w / 2, self.y + self.h / 2)
    }

    /// Whether the two rooms overlap or touch (see `spec_intersects`).
    pub fn intersects(&self, o: &Room) -> (b: bool)
        requires
            i32::MIN <= self.x - 1,
            i32::MIN <= o.x + o.w <= i32::MAX,
            i32::MIN <= self.x + self.w && self.x + self.w + 1 <= i32::MAX,
            i32::MIN <= self.y - 1,
            i32::MIN <= o.y + o.h <= i32::MAX,
            i32::MIN <= self.y + self.h && self.y + self.h + 1 <= i32::MAX,
        ensures
            b == self.spec_intersects(*o),
    {
        self.x - 1 < o.x + o.w && self.x + self.w + 1 > o.x && self.y - 1 < o.y + o.h
            && self.y + self.h + 1 > o.y
    }
}

/// A scrawl on a wall tile; `text_idx` picks the line of graffiti.
#[derive(Clone, Copy, Debug)]
pub struct Graffiti {
    pub x: usize,
    pub y: usize,
    pub text_idx: usize,
}

/// A level: the tile grid in row-major order plus the places where things spawn.
pub struct DungeonMap {
    pub w: usize,
    pub h: usize,
    pub tiles: Vec<Tile>,
    pub rooms: Vec<Room>,
    /// Player spawn, in thousandths of a tile.
    pub spawn: (i64, i64),
    pub graffiti: Vec<Graffiti>,
    pub chest_spots: Vec<(usize, usize)>,
    /// x, y, tier.
    pub mob_spots: Vec<(usize, usize, i32)>,
    pub npc_spots: Vec<(usize, usize)>,
    pub has_shop: bool,
}

/// Tile `(x, y)` of a generated-size grid.
pub open spec fn at(t: Seq<Tile>, x: int, y: int) -> Tile {
    t[y * MAP_W + x]
}

pub open spec fn in_grid(x: int, y: int) -> bool {
    0 <= x < MAP_W && 0 <= y < MAP_H
}

/// Off the border ring of a generated-size grid.
pub open spec fn interior(x: int, y: int) -> bool {
    1 <= x <= MAP_W - 2 && 1 <= y <= MAP_H - 2
}

/// `after` differs from `before` only where an interior tile became floor.
pub open spec fn only_dug(before: Seq<Tile>, after: Seq<Tile>) -> bool {
    &&& after.len() == before.len()
    &&& forall|x: int, y: int|
        #![trigger at(after, x, y)]
        in_grid(x, y) ==> at(after, x, y) == at(before, x, y) || (at(after, x, y) == Tile::Floor
            && interior(x, y))
}

impl DungeonMap {
    /// The grid holds exactly `w * h` tiles.
    pub open spec fn wf(&self) -> bool {
        self.tiles@.len() == self.w * self.h
    }

    /// Tile `(x, y)`; everything off the grid counts as wall.
    pub open spec fn spec_tile(&self, x: int, y: int) -> Tile {
        if 0 <= x < self.w && 0 <= y < self.h {
            self.tiles@[y * self.w + x]
        } else {
            Tile::Wall
        }
    }

    /// The tile at `(x, y)`, wall when off the grid.
    pub fn tile(&self, x: i32, y: i32) -> (t: Tile)
        requires
            self.wf(),
        ensures
            t == self.spec_tile(x as int, y as int),
    {
        if x < 0 || y < 0 || x as usize >= self.w || y as usize >= self.h {
            Tile::Wall
        } else {
            let n = self.tiles.len();
            proof {
                lemma_row_major(x as int, y as int, self.w as int, self.h as int);
            }
            self.tiles[y as usize * self.w + x as usize]
        }
    }

    /// Overwrites tile `(x, y)`; a position off the grid changes nothing.
    pub fn set(&mut self, x: i32, y: i32, t: Tile)
        requires
            old(self).wf(),
        ensures
            final(self).wf(),
            final(self).w == old(self).w,
            final(self).h == old(self).h,
            final(self).tiles@ == (if 0 <= x < old(self).w && 0 <= y < old(self).h {
                old(self).tiles@.update(y * old(self).w + x, t)
            } else {
                old(self).tiles@
            }),
            final(self).rooms == old(self).rooms,
            final(self).spawn == old(self).spawn,
            final(self).graffiti == old(self).graffiti,
            final(self).chest_spots == old(self).chest_spots,
            final(self).mob_spots == old(self).mob_spots,
            final(self).npc_spots == old(self).npc_spots,
            final(self).has_shop == old(self).has_shop,
    {
        if x >= 0 && y >= 0 && (x as usize) < self.w && (y as usize) < self.h {
            let n = self.tiles.len();
            proof {
                lemma_row_major(x as int, y as int, self.w as int, self.h as int);
            }
            let i = y as usize * self.w + x as usize;
            self.tiles.set(i, t);
        }
    }

    /// Whether every tile in the rectangle `x0..=x1` by `y0..=y1` is walkable
    /// (an empty rectangle is free). This is the grid half of an
    /// entity-versus-wall collision test.
    pub fn area_free(&self, x0: i32, x1: i32, y0: i32, y1: i32) -> (b: bool)
        requires
            self.wf(),
            x1 < i32::MAX,
            y1 < i32::MAX,
        ensures
            b == (forall|tx: int, ty: int|
                x0 <= tx <= x1 && y0 <= ty <= y1 ==> #[trigger] self.spec_tile(tx, ty).spec_walkable()),
    {
        let mut ty = y0;
        while ty <= y1
            invariant
                self.wf(),
                y0 <= ty,
                ty <= y1 + 1 || ty == y0,
                y1 < i32::MAX,
                x1 < i32::MAX,
                forall|tx: int, yy: int|
                    x0 <= tx <= x1 && y0 <= yy < ty ==> #[trigger] self.spec_tile(tx, yy).spec_walkable(),
            decreases y1 + 1 - ty,
        {
            let mut tx = x0;
            while tx <= x1
                invariant
                    self.wf(),
                    y0 <= ty <= y1,
                    x0 <= tx,
                    tx <= x1 + 1 || tx == x0,
                    x1 < i32::MAX,
                    forall|xx: int| x0 <= xx < tx ==> #[trigger] self.spec_tile(xx, ty as int).spec_walkable(),
                decreases x1 + 1 - tx,
            {
                if !self.tile(tx, ty).walkable() {
                    assert(!self.spec_tile(tx as int, ty as int).spec_walkable());
                    return false;
                }
                tx = tx + 1;
            }
            ty = ty + 1;
        }
        true
    }

    /// Whether a mob may walk to a spot: the tiles its box covers
    /// (`x0..=x1` by `y0..=y1`) are walkable and the tile under its centre
    /// `(tx, ty)` is not safe. Mobs never walk into a safe room.
    pub fn mob_may_step(&self, x0: i32, x1: i32, y0: i32, y1: i32, tx: i32, ty: i32) -> (b: bool)
        requires
            self.wf(),
            x1 < i32::MAX,
            y1 < i32::MAX,
        ensures
            b == ((forall|x: int, y: int|
                x0 <= x <= x1 && y0 <= y <= y1 ==> #[trigger] self.spec_tile(x, y).spec_walkable())
                && !self.spec_tile(tx as int, ty as int).spec_safe()),
            b ==> !self.spec_tile(tx as int, ty as int).spec_safe(),
    {
        self.area_free(x0, x1, y0, y1) && !self.tile(tx, ty).safe()
    }
}

/// Row-major indexing stays inside a `w` by `h` grid.
pub proof fn lemma_row_major(x: int, y: int, w: int, h: int)
    requires
        0 <= x < w,
        0 <= y < h,
    ensures
        0 <= y * w + x < w * h,
        y * w + x >= 0,
{
    assert(y * w + x < w * h) by (nonlinear_arith)
        requires
            0 <= x < w,
            0 <= y < h,
    ;
    assert(y * w >= 0) by (nonlinear_arith)
        requires
            0 <= y,
            0 <= w,
    ;
}

/// Overlapping or touching is symmetric: two rooms intersect exactly when
/// each starts before the other ends, with one tile of margin, on both axes.
pub proof fn lemma_intersects_symmetric(a: Room, b: Room)
    ensures
        a.spec_intersects(b) == b.spec_intersects(a),
        a.spec_intersects(b) <==> (a.x < b.x + b.w + 1 && b.x < a.x + a.w + 1 && a.y < b.y + b.h + 1 && b.y < a.y + a.h + 1),
{
}

/// A room whose tiles all lie on the grid (an empty room anywhere from the
/// origin on counts too).
pub open spec fn placed(r: Room) -> bool {
    &&& 0 <= r.x && 0 <= r.y
    &&& r.x + r.w <= MAP_W
    &&& r.y + r.h <= MAP_H
}

/// Sets every tile of room `r` to `t`.
pub(crate) fn fill_room(tiles: &mut Vec<Tile>, r: &Room, t: Tile)
    requires
        old(tiles)@.len() == MAP_W * MAP_H,
        placed(*r),
    ensures
        final(tiles)@.len() == MAP_W * MAP_H,
        forall|x: int, y: int|
            #![trigger at(final(tiles)@, x, y)]
            in_grid(x, y) ==> at(final(tiles)@, x, y) == (if r.contains(x, y) {
                t
            } else {
                at(old(tiles)@, x, y)
            }),
{
    let ghost orig = tiles@;
    let mut y = r.y;
    while y < r.y + r.h
        invariant
            placed(*r),
            r.y <= y,
            y <= r.y + r.h || y == r.y,
            tiles@.len() == MAP_W * MAP_H,
            forall|xx: int, yy: int|
                #![trigger at(tiles@, xx, yy)]
                in_grid(xx, yy) ==> at(tiles@, xx, yy) == (if r.contains(xx, yy) && yy < y {
                    t
                } else {
                    at(orig, xx, yy)
                }),
        decreases r.y + r.h - y,
    {
        let mut x = r.x;
        while x < r.x + r.w
            invariant
                placed(*r),
                r.y <= y < r.y + r.h,
                r.x <= x,
                x <= r.x + r.w || x == r.x,
                tiles@.len() == MAP_W * MAP_H,
                forall|xx: int, yy: int|
                    #![trigger at(tiles@, xx, yy)]
                    in_grid(xx, yy) ==> at(tiles@, xx, yy) == (if r.contains(xx, yy) && (yy < y
                        || (yy == y && xx < x)) {
                        t
                    } else {
                        at(orig, xx, yy)
                    }),
            decreases r.x + r.w - x,
        {
            let ghost prev = tiles@;
            tiles.set(y as usize * MAP_W + x as usize, t);
            proof {
                assert forall|xx: int, yy: int| #![trigger at(tiles@, xx, yy)] in_grid(xx, yy) implies
                    at(tiles@, xx, yy) == (if r.contains(xx, yy) && (yy < y || (yy == y && xx < x + 1)) {
                        t
                    } else {
                        at(orig, xx, yy)
                    }) by {
                    if xx == x && yy == y {
                    } else {
                        assert(at(tiles@, xx, yy) == at(prev, xx, yy));
                    }
                }
            }
            x = x + 1;
        }
        y = y + 1;
    }
}

fn carve_room(tiles: &mut Vec<Tile>, r: &Room)
    requires
        old(tiles)@.len() == MAP_W * MAP_H,
        placed(*r),
    ensures
        final(tiles)@.len() == MAP_W * MAP_H,
        forall|x: int, y: int|
            #![trigger at(final(tiles)@, x, y)]
            in_grid(x, y) ==> at(final(tiles)@, x, y) == (if r.contains(x, y) {
                Tile::Floor
            } else {
                at(old(tiles)@, x, y)
            }),
{
    fill_room(tiles, r, Tile::Floor);
}

/// Whether `v` lies on the way from `s` to `e`, `s` itself left out.
pub open spec fn stepped(s: int, e: int, v: int) -> bool {
    (s < v <= e) || (e <= v < s)
}

/// The second lane of a corridor's leg along x: the row below, kept inside.
pub open spec fn lane_y(y: int) -> int {
    if y + 1 > MAP_H - 2 { MAP_H - 2 } else { y + 1 }
}

/// The second lane of a corridor's leg along y: the column to the right,
/// kept inside.
pub open spec fn lane_x(x: int) -> int {
    if x + 1 > MAP_W - 2 { MAP_W - 2 } else { x + 1 }
}

/// The cells of the L-shaped corridor from `a` to `b`: along x on row
/// `a.1` (and the row below), from past `a.0` to `b.0`; then along y on
/// column `b.0` (and the column to its right), from past `a.1` to `b.1`.
pub open spec fn corridor_cell(a: (int, int), b: (int, int), x: int, y: int) -> bool {
    ||| stepped(a.0, b.0, x) && (y == a.1 || y == lane_y(a.1))
    ||| stepped(a.1, b.1, y) && (x == b.0 || x == lane_x(b.0))
}

/// Every cell of the corridor from `a` to `b` is floor.
pub open spec fn corridor_floored(t: Seq<Tile>, a: (int, int), b: (int, int)) -> bool {
    forall|x: int, y: int| #![trigger at(t, x, y)] corridor_cell(a, b, x, y) ==> at(t, x, y) == Tile::Floor
}

/// Digs an L-shaped corridor two tiles wide from `a` to `b`: first along x,
/// then along y. It only turns interior tiles into floor, and every cell of
/// the corridor ends up floor.
fn carve_corridor(tiles: &mut Vec<Tile>, a: (i32, i32), b: (i32, i32))
    requires
        old(tiles)@.len() == MAP_W * MAP_H,
        interior(a.0 as int, a.1 as int),
        interior(b.0 as int, b.1 as int),
    ensures
        only_dug(old(tiles)@, final(tiles)@),
        corridor_floored(final(tiles)@, (a.0 as int, a.1 as int), (b.0 as int, b.1 as int)),
        forall|x: int, y: int|
            #![trigger at(final(tiles)@, x, y)]
            in_grid(x, y) && at(final(tiles)@, x, y) != at(old(tiles)@, x, y)
                ==> corridor_cell((a.0 as int, a.1 as int), (b.0 as int, b.1 as int), x, y),
        at(final(tiles)@, b.0 as int, b.1 as int) == Tile::Floor || a == b,
{
    let ghost orig = tiles@;
    let ghost ga = (a.0 as int, a.1 as int);
    let ghost gb = (b.0 as int, b.1 as int);
    let (mut x, mut y) = a;
    let hi_y: i32 = MAP_H as i32 - 2;
    let hi_x: i32 = MAP_W as i32 - 2;
    while x != b.0
        invariant
            tiles@.len() == MAP_W * MAP_H,
            only_dug(orig, tiles@),
            interior(a.0 as int, a.1 as int),
            interior(b.0 as int, b.1 as int),
            y == a.1,
            hi_y == MAP_H - 2,
            hi_x == MAP_W - 2,
            (a.0 <= x <= b.0) || (b.0 <= x <= a.0),
            x == a.0 || at(tiles@, x as int, y as int) == Tile::Floor,
            forall|xq: int, yq: int| #![trigger at(tiles@, xq, yq)]
                stepped(a.0 as int, x as int, xq) && (yq == a.1 || yq == lane_y(a.1 as int)) ==> at(tiles@, xq, yq) == Tile::Floor,
            forall|xq: int, yq: int| #![trigger at(tiles@, xq, yq)]
                in_grid(xq, yq) && at(tiles@, xq, yq) != at(orig, xq, yq)
                    ==> stepped(a.0 as int, x as int, xq) && (yq == a.1 || yq == lane_y(a.1 as int)),
        decreases (if b.0 > x { b.0 - x } else { x - b.0 }),
    {
        let ghost x_old = x as int;
        x = if b.0 > x { x + 1 } else { x - 1 };
        let mut dy: i32 = 0;
        while dy < 2
            invariant
                tiles@.len() == MAP_W * MAP_H,
                only_dug(orig, tiles@),
                interior(x as int, a.1 as int),
                interior(a.0 as int, a.1 as int),
                interior(b.0 as int, b.1 as int),
                y == a.1,
                0 <= dy <= 2,
                hi_y == MAP_H - 2,
                dy >= 1 ==> at(tiles@, x as int, y as int) == Tile::Floor,
                dy >= 2 ==> at(tiles@, x as int, lane_y(y as int)) == Tile::Floor,
                forall|xq: int, yq: int| #![trigger at(tiles@, xq, yq)]
                    stepped(a.0 as int, x_old, xq) && (yq == a.1 || yq == lane_y(a.1 as int)) ==> at(tiles@, xq, yq) == Tile::Floor,
                forall|xq: int, yq: int| #![trigger at(tiles@, xq, yq)]
                    in_grid(xq, yq) && at(tiles@, xq, yq) != at(orig, xq, yq)
                        ==> (stepped(a.0 as int, x_old, xq) || xq == x) && (yq == a.1 || yq == lane_y(a.1 as int)),
                (a.0 <= x_old <= b.0) || (b.0 <= x_old <= a.0),
                x == (if b.0 > x_old { x_old + 1 } else { x_old - 1 }),
            decreases 2 - dy,
        {
            let yy0 = y + dy;
            let yy = if yy0 < 1 { 1 } else if yy0 > hi_y { hi_y } else { yy0 };
            let ghost prev = tiles@;
            tiles.set(yy as usize * MAP_W + x as usize, Tile::Floor);
            proof {
                assert forall|xx: int, yq: int| #![trigger at(tiles@, xx, yq)] in_grid(xx, yq) implies
                    at(tiles@, xx, yq) == at(orig, xx, yq) || (at(tiles@, xx, yq) == Tile::Floor
                        && interior(xx, yq)) by {
                    if xx == x && yq == yy {
                    } else {
                        assert(at(tiles@, xx, yq) == at(prev, xx, yq));
                    }
                }
                assert forall|xq: int, yq: int| #![trigger at(tiles@, xq, yq)]
                    stepped(a.0 as int, x_old, xq) && (yq == a.1 || yq == lane_y(a.1 as int)) implies at(tiles@, xq, yq) == Tile::Floor by {
                    assert(in_grid(xq, yq));
                    if !(xq == x && yq == yy) {
                        assert(at(tiles@, xq, yq) == at(prev, xq, yq));
                    }
                }
                assert forall|xq: int, yq: int| #![trigger at(tiles@, xq, yq)]
                    in_grid(xq, yq) && at(tiles@, xq, yq) != at(orig, xq, yq) implies
                        (stepped(a.0 as int, x_old, xq) || xq == x) && (yq == a.1 || yq == lane_y(a.1 as int)) by {
                    if !(xq == x && yq == yy) {
                        assert(at(tiles@, xq, yq) == at(prev, xq, yq));
                    }
                }
                if dy >= 1 && yy != y {
                    assert(at(tiles@, x as int, y as int) == at(prev, x as int, y as int));
                }
                if dy == 0 && yy != lane_y(y as int) {
                    assert(at(tiles@, x as int, lane_y(y as int)) == at(prev, x as int, lane_y(y as int)));
                }
            }
            dy = dy + 1;
        }
        proof {
            assert forall|xq: int, yq: int| #![trigger at(tiles@, xq, yq)]
                stepped(a.0 as int, x as int, xq) && (yq == a.1 || yq == lane_y(a.1 as int)) implies at(tiles@, xq, yq) == Tile::Floor by {
                if xq != x {
                    assert(stepped(a.0 as int, x_old, xq));
                }
            }
            assert forall|xq: int, yq: int| #![trigger at(tiles@, xq, yq)]
                in_grid(xq, yq) && at(tiles@, xq, yq) != at(orig, xq, yq)
                    implies stepped(a.0 as int, x as int, xq) && (yq == a.1 || yq == lane_y(a.1 as int)) by {
            }
        }
    }
    while y != b.1
        invariant
            tiles@.len() == MAP_W * MAP_H,
            only_dug(orig, tiles@),
            interior(a.0 as int, a.1 as int),
            interior(b.0 as int, b.1 as int),
            x == b.0,
            hi_x == MAP_W - 2,
            (a.1 <= y <= b.1) || (b.1 <= y <= a.1),
            (x == a.0 && y == a.1) || at(tiles@, x as int, y as int) == Tile::Floor,
            forall|xq: int, yq: int| #![trigger at(tiles@, xq, yq)]
                stepped(a.0 as int, b.0 as int, xq) && (yq == a.1 || yq == lane_y(a.1 as int)) ==> at(tiles@, xq, yq) == Tile::Floor,
            forall|xq: int, yq: int| #![trigger at(tiles@, xq, yq)]
                stepped(a.1 as int, y as int, yq) && (xq == b.0 || xq == lane_x(b.0 as int)) ==> at(tiles@, xq, yq) == Tile::Floor,
            forall|xq: int, yq: int| #![trigger at(tiles@, xq, yq)]
                in_grid(xq, yq) && at(tiles@, xq, yq) != at(orig, xq, yq)
                    ==> (stepped(a.0 as int, b.0 as int, xq) && (yq == a.1 || yq == lane_y(a.1 as int)))
                    || (stepped(a.1 as int, y as int, yq) && (xq == b.0 || xq == lane_x(b.0 as int))),
        decreases (if b.1 > y { b.1 - y } else { y - b.1 }),
    {
        let ghost y_old = y as int;
        y = if b.1 > y { y + 1 } else { y - 1 };
        let mut dx: i32 = 0;
        while dx < 2
            invariant
                tiles@.len() == MAP_W * MAP_H,
                only_dug(orig, tiles@),
                interior(x as int, y as int),
                interior(a.0 as int, a.1 as int),
                interior(b.0 as int, b.1 as int),
                (a.1 <= y_old <= b.1) || (b.1 <= y_old <= a.1),
                0 <= dx <= 2,
                hi_x == MAP_W - 2,
                x == b.0,
                dx >= 1 ==> at(tiles@, x as int, y as int) == Tile::Floor,
                dx >= 2 ==> at(tiles@, lane_x(x as int), y as int) == Tile::Floor,
                forall|xq: int, yq: int| #![trigger at(tiles@, xq, yq)]
                    stepped(a.0 as int, b.0 as int, xq) && (yq == a.1 || yq == lane_y(a.1 as int)) ==> at(tiles@, xq, yq) == Tile::Floor,
                forall|xq: int, yq: int| #![trigger at(tiles@, xq, yq)]
                    stepped(a.1 as int, y_old, yq) && (xq == b.0 || xq == lane_x(b.0 as int)) ==> at(tiles@, xq, yq) == Tile::Floor,
                forall|xq: int, yq: int| #![trigger at(tiles@, xq, yq)]
                    in_grid(xq, yq) && at(tiles@, xq, yq) != at(orig, xq, yq)
                        ==> (stepped(a.0 as int, b.0 as int, xq) && (yq == a.1 || yq == lane_y(a.1 as int)))
                        || ((stepped(a.1 as int, y_old, yq) || yq == y) && (xq == b.0 || xq == lane_x(b.0 as int))),
                y == (if b.1 > y_old { y_old + 1 } else { y_old - 1 }),
            decreases 2 - dx,
        {
            let xx0 = x + dx;
            let xx = if xx0 < 1 { 1 } else if xx0 > hi_x { hi_x } else { xx0 };
            let ghost prev = tiles@;
            tiles.set(y as usize * MAP_W + xx as usize, Tile::Floor);
            proof {
                assert forall|xq: int, yq: int| #![trigger at(tiles@, xq, yq)] in_grid(xq, yq) implies
                    at(tiles@, xq, yq) == at(orig, xq, yq) || (at(tiles@, xq, yq) == Tile::Floor
                        && interior(xq, yq)) by {
                    if xq == xx && yq == y {
                    } else {
                        assert(at(tiles@, xq, yq) == at(prev, xq, yq));
                    }
                }
                assert forall|xq: int, yq: int| #![trigger at(tiles@, xq, yq)]
                    stepped(a.0 as int, b.0 as int, xq) && (yq == a.1 || yq == lane_y(a.1 as int)) implies at(tiles@, xq, yq) == Tile::Floor by {
                    assert(in_grid(xq, yq));
                    if !(xq == xx && yq == y) {
                        assert(at(tiles@, xq, yq) == at(prev, xq, yq));
                    }
                }
                assert forall|xq: int, yq: int| #![trigger at(tiles@, xq, yq)]
                    stepped(a.1 as int, y_old, yq) && (xq == b.0 || xq == lane_x(b.0 as int)) implies at(tiles@, xq, yq) == Tile::Floor by {
                    assert(in_grid(xq, yq));
                    if !(xq == xx && yq == y) {
                        assert(at(tiles@, xq, yq) == at(prev, xq, yq));
                    }
                }
                assert forall|xq: int, yq: int| #![trigger at(tiles@, xq, yq)]
                    in_grid(xq, yq) && at(tiles@, xq, yq) != at(orig, xq, yq) implies
                        (stepped(a.0 as int, b.0 as int, xq) && (yq == a.1 || yq == lane_y(a.1 as int)))
                        || ((stepped(a.1 as int, y_old, yq) || yq == y) && (xq == b.0 || xq == lane_x(b.0 as int))) by {
                    if !(xq == xx && yq == y) {
                        assert(at(tiles@, xq, yq) == at(prev, xq, yq));
                    }
                }
                if dx >= 1 && xx != x {
                    assert(at(tiles@, x as int, y as int) == at(prev, x as int, y as int));
                }
                if dx == 0 && xx != lane_x(x as int) {
                    assert(at(tiles@, lane_x(x as int), y as int) == at(prev, lane_x(x as int), y as int));
                }
            }
            dx = dx + 1;
        }
        proof {
            assert forall|xq: int, yq: int| #![trigger at(tiles@, xq, yq)]
                stepped(a.1 as int, y as int, yq) && (xq == b.0 || xq == lane_x(b.0 as int)) implies at(tiles@, xq, yq) == Tile::Floor by {
                if yq != y {
                    assert(stepped(a.1 as int, y_old, yq));
                }
            }
            assert forall|xq: int, yq: int| #![trigger at(tiles@, xq, yq)]
                in_grid(xq, yq) && at(tiles@, xq, yq) != at(orig, xq, yq) implies
                    (stepped(a.0 as int, b.0 as int, xq) && (yq == a.1 || yq == lane_y(a.1 as int)))
                    || (stepped(a.1 as int, y as int, yq) && (xq == b.0 || xq == lane_x(b.0 as int))) by {
            }
        }
    }
    proof {
        assert forall|xq: int, yq: int| #![trigger at(tiles@, xq, yq)]
            corridor_cell(ga, gb, xq, yq) implies at(tiles@, xq, yq) == Tile::Floor by {
            if stepped(a.0 as int, b.0 as int, xq) && (yq == a.1 || yq == lane_y(a.1 as int)) {
            } else {
                assert(stepped(a.1 as int, y as int, yq) && (xq == b.0 || xq == lane_x(b.0 as int)));
            }
        }
        assert forall|xq: int, yq: int| #![trigger at(tiles@, xq, yq)]
            in_grid(xq, yq) && at(tiles@, xq, yq) != at(orig, xq, yq) implies corridor_cell(ga, gb, xq, yq) by {
        }
    }
}


// ---------- procedural generation ----------

/// A room as generation draws it: 5..12 wide, 4..9 tall, clear of the border.
pub open spec fn drawn(r: Room) -> bool {
    &&& 5 <= r.w < 12 && 4 <= r.h < 9
    &&& 1 <= r.x && r.x + r.w <= MAP_W - 2
    &&& 1 <= r.y && r.y + r.h <= MAP_H - 2
}

/// No two rooms overlap or touch.
pub open spec fn spaced(rs: Seq<Room>) -> bool {
    forall|i: int, j: int|
        0 <= i < rs.len() && 0 <= j < rs.len() && i != j ==> !(#[trigger] rs[i]).spec_intersects(
            #[trigger] rs[j],
        )
}

/// Manhattan distance from `c` to the center of `r`.
pub open spec fn dist(r: Room, c: (int, int)) -> int {
    let d0 = r.spec_center().0 - c.0;
    let d1 = r.spec_center().1 - c.1;
    (if d0 < 0 { -d0 } else { d0 }) + (if d1 < 0 { -d1 } else { d1 })
}

/// `f` is the room whose center lies farthest (first of the farthest) from
/// the center of room 0, among the other rooms; with a single room it is room 0.
pub open spec fn is_far(rs: Seq<Room>, f: int) -> bool {
    let c = rs[0].spec_center();
    if rs.len() == 1 {
        f == 0
    } else {
        &&& 1 <= f < rs.len()
        &&& forall|j: int| 1 <= j < rs.len() ==> dist(#[trigger] rs[j], c) <= dist(rs[f], c)
        &&& forall|j: int| 1 <= j < f ==> dist(#[trigger] rs[j], c) < dist(rs[f], c)
    }
}

/// Only walls and interior floor.
pub open spec fn dug(t: Seq<Tile>) -> bool {
    &&& t.len() == MAP_W * MAP_H
    &&& forall|x: int, y: int|
        #![trigger at(t, x, y)]
        in_grid(x, y) ==> at(t, x, y) == Tile::Wall || (at(t, x, y) == Tile::Floor && interior(x, y))
}

/// Every tile of the first `k` rooms is floor.
pub open spec fn rooms_floored(t: Seq<Tile>, rs: Seq<Room>, k: int) -> bool {
    forall|j: int, x: int, y: int|
        #![trigger rs[j], at(t, x, y)]
        0 <= j < k && in_grid(x, y) && rs[j].contains(x, y) ==> at(t, x, y) == Tile::Floor
}

/// The tile facts of a generated level with rooms `rs` and stairs room `f`:
/// a sealed border; carved rooms; room 0 safe around a campfire at its center;
/// the only stairs at the center of room `f`.
pub open spec fn furnished(t: Seq<Tile>, rs: Seq<Room>, f: int) -> bool {
    let c0 = rs[0].spec_center();
    let cf = rs[f].spec_center();
    &&& t.len() == MAP_W * MAP_H
    &&& 0 <= f < rs.len()
    &&& forall|x: int, y: int|
        #![trigger at(t, x, y)]
        in_grid(x, y) && !interior(x, y) ==> at(t, x, y) == Tile::Wall
    &&& forall|j: int, x: int, y: int|
        #![trigger rs[j], at(t, x, y)]
        0 <= j < rs.len() && in_grid(x, y) && rs[j].contains(x, y) ==> at(t, x, y).spec_walkable()
    &&& forall|x: int, y: int|
        #![trigger at(t, x, y)]
        in_grid(x, y) && rs[0].contains(x, y) && (x, y) != c0 ==> at(t, x, y) == Tile::Safe
    &&& at(t, c0.0, c0.1) == (if rs.len() == 1 { Tile::Stairs } else { Tile::Campfire })
    &&& at(t, cf.0, cf.1) == Tile::Stairs
    &&& forall|x: int, y: int|
        #![trigger at(t, x, y)]
        in_grid(x, y) ==> {
            &&& at(t, x, y) == Tile::Safe ==> rs[0].contains(x, y)
            &&& at(t, x, y) == Tile::Campfire ==> (x, y) == c0
            &&& at(t, x, y) == Tile::Stairs ==> (x, y) == cf
        }
}

proof fn lemma_drawn_center(r: Room)
    requires
        drawn(r),
    ensures
        interior(r.spec_center().0, r.spec_center().1),
        r.contains(r.spec_center().0, r.spec_center().1),
        placed(r),
{
}

/// Draws up to `target` non-overlapping rooms in at most 400 attempts.
fn draw_rooms(target: usize) -> (rooms: Vec<Room>)
    requires
        target >= 1,
    ensures
        1 <= rooms@.len() <= target,
        rooms@.len() <= 400,
        forall|i: int| 0 <= i < rooms@.len() ==> drawn(#[trigger] rooms@[i]),
        spaced(rooms@),
{
    let mut rooms: Vec<Room> = Vec::new();
    let mut attempts: u32 = 0;
    while rooms.len() < target && attempts < 400
        invariant
            target >= 1,
            rooms@.len() <= attempts <= 400,
            rooms@.len() <= target,
            attempts > 0 ==> rooms@.len() >= 1,
            forall|i: int| 0 <= i < rooms@.len() ==> drawn(#[trigger] rooms@[i]),
            spaced(rooms@),
        decreases 400 - attempts,
    {
        attempts = attempts + 1;
        let w = gen_range(5, 12);
        let h = gen_range(4, 9);
        let x = gen_range(1, MAP_W as i32 - w - 1);
        let y = gen_range(1, MAP_H as i32 - h - 1);
        let r = Room { x, y, w, h };
        let mut clash = false;
        let mut k: usize = 0;
        while k < rooms.len()
            invariant
                k <= rooms@.len(),
                drawn(r),
                forall|i: int| 0 <= i < rooms@.len() ==> drawn(#[trigger] rooms@[i]),
                !clash ==> forall|i: int| 0 <= i < k ==> !r.spec_intersects(#[trigger] rooms@[i]),
                clash ==> rooms@.len() > 0,
            decreases rooms@.len() - k,
        {
            if r.intersects(&rooms[k]) {
                clash = true;
            }
            assert(clash ==> rooms@.len() > 0);
            k = k + 1;
        }
        if clash {
            continue;
        }
        let ghost prev = rooms@;
        rooms.push(r);
        proof {
            assert forall|i: int, j: int|
                0 <= i < rooms@.len() && 0 <= j < rooms@.len() && i != j implies !(
                #[trigger] rooms@[i]).spec_intersects(#[trigger] rooms@[j]) by {
                if i < prev.len() && j < prev.len() {
                    assert(prev[i] == rooms@[i] && prev[j] == rooms@[j]);
                } else if i == prev.len() {
                    assert(!r.spec_intersects(prev[j]));
                } else {
                    assert(!r.spec_intersects(prev[i]));
                }
            }
        }
    }
    rooms
}

/// The corridor dug between rooms `i - 1` and `i` (centre to centre) is floor.
pub open spec fn linked(t: Seq<Tile>, rs: Seq<Room>, i: int) -> bool {
    corridor_floored(t, rs[i - 1].spec_center(), rs[i].spec_center())
}

/// The corridors between consecutive rooms, up to room `k`, are floor.
pub open spec fn corridors_floored(t: Seq<Tile>, rs: Seq<Room>, k: int) -> bool {
    forall|i: int| 1 <= i < k ==> #[trigger] linked(t, rs, i)
}

/// Every cell of the corridor between rooms `i - 1` and `i` can be walked on.
pub open spec fn linked_walkable(t: Seq<Tile>, rs: Seq<Room>, i: int) -> bool {
    forall|x: int, y: int|
        #![trigger at(t, x, y)]
        corridor_cell(rs[i - 1].spec_center(), rs[i].spec_center(), x, y) ==> at(t, x, y).spec_walkable()
}

/// Whether tile `(x, y)` lies in one of the first `k` rooms.
pub open spec fn in_some_room(rs: Seq<Room>, k: int, x: int, y: int) -> bool {
    exists|j: int| 0 <= j < k && #[trigger] rs[j].contains(x, y)
}

/// Whether tile `(x, y)` lies on one of the corridors dug before room `k`.
pub open spec fn on_some_corridor(rs: Seq<Room>, k: int, x: int, y: int) -> bool {
    exists|i: int| 1 <= i < k && #[trigger] corridor_cell(rs[i - 1].spec_center(), rs[i].spec_center(), x, y)
}

/// Every floor tile lies in one of the first `kr` rooms or on one of the
/// corridors dug before room `kc`.
pub open spec fn floor_explained(t: Seq<Tile>, rs: Seq<Room>, kr: int, kc: int) -> bool {
    forall|x: int, y: int|
        #![trigger at(t, x, y)]
        in_grid(x, y) && at(t, x, y) == Tile::Floor ==> in_some_room(rs, kr, x, y) || on_some_corridor(rs, kc, x, y)
}

/// A corridor between interior points stays in the interior.
proof fn lemma_corridor_interior(a: (int, int), b: (int, int), x: int, y: int)
    requires
        interior(a.0, a.1),
        interior(b.0, b.1),
        corridor_cell(a, b, x, y),
    ensures
        interior(x, y),
{
}

/// Carves every room, then joins consecutive rooms with corridors.
fn dig(rooms: &Vec<Room>) -> (tiles: Vec<Tile>)
    requires
        forall|i: int| 0 <= i < rooms@.len() ==> drawn(#[trigger] rooms@[i]),
    ensures
        dug(tiles@),
        rooms_floored(tiles@, rooms@, rooms@.len() as int),
        corridors_floored(tiles@, rooms@, rooms@.len() as int),
        floor_explained(tiles@, rooms@, rooms@.len() as int, rooms@.len() as int),
{
    let mut tiles = vec![Tile::Wall; MAP_W * MAP_H];
    let mut k: usize = 0;
    while k < rooms.len()
        invariant
            k <= rooms@.len(),
            forall|i: int| 0 <= i < rooms@.len() ==> drawn(#[trigger] rooms@[i]),
            dug(tiles@),
            rooms_floored(tiles@, rooms@, k as int),
            floor_explained(tiles@, rooms@, k as int, 0),
        decreases rooms@.len() - k,
    {
        let ghost prev = tiles@;
        let r = rooms[k];
        assert(drawn(rooms@[k as int]));
        carve_room(&mut tiles, &r);
        proof {
            assert forall|x: int, y: int| #![trigger at(tiles@, x, y)] in_grid(x, y) implies at(tiles@, x, y)
                == Tile::Wall || (at(tiles@, x, y) == Tile::Floor && interior(x, y)) by {
                assert(at(prev, x, y) == Tile::Wall || (at(prev, x, y) == Tile::Floor && interior(x, y)));
            }
            assert forall|j: int, x: int, y: int|
                #![trigger rooms@[j], at(tiles@, x, y)]
                0 <= j < k + 1 && in_grid(x, y) && rooms@[j].contains(x, y) implies at(tiles@, x, y)
                == Tile::Floor by {
                if j < k {
                    assert(at(prev, x, y) == Tile::Floor);
                }
            }
            assert forall|x: int, y: int| #![trigger at(tiles@, x, y)]
                in_grid(x, y) && at(tiles@, x, y) == Tile::Floor implies
                    in_some_room(rooms@, k + 1, x, y) || on_some_corridor(rooms@, 0, x, y) by {
                if rooms@[k as int].contains(x, y) {
                    assert(rooms@[k as int].contains(x, y));
                } else {
                    assert(at(prev, x, y) == Tile::Floor);
                    assert(in_some_room(rooms@, k as int, x, y));
                    let j = choose|j: int| 0 <= j < k && #[trigger] rooms@[j].contains(x, y);
                    assert(rooms@[j].contains(x, y));
                }
            }
        }
        k = k + 1;
    }
    let mut i: usize = 1;
    while i < rooms.len()
        invariant
            1 <= i,
            forall|j: int| 0 <= j < rooms@.len() ==> drawn(#[trigger] rooms@[j]),
            dug(tiles@),
            rooms_floored(tiles@, rooms@, rooms@.len() as int),
            rooms@.len() >= 1 ==> i <= rooms@.len(),
            rooms@.len() == 0 ==> i == 1,
            corridors_floored(tiles@, rooms@, i as int),
            floor_explained(tiles@, rooms@, rooms@.len() as int, i as int),
        decreases rooms@.len() - i,
    {
        let ghost prev = tiles@;
        let ra = rooms[i - 1];
        let rb = rooms[i];
        proof {
            assert(drawn(rooms@[i - 1]));
            assert(drawn(rooms@[i as int]));
            lemma_drawn_center(ra);
            lemma_drawn_center(rb);
        }
        carve_corridor(&mut tiles, ra.center(), rb.center());
        proof {
            assert forall|x: int, y: int| #![trigger at(tiles@, x, y)] in_grid(x, y) implies at(tiles@, x, y)
                == Tile::Wall || (at(tiles@, x, y) == Tile::Floor && interior(x, y)) by {
                assert(at(prev, x, y) == Tile::Wall || (at(prev, x, y) == Tile::Floor && interior(x, y)));
            }
            assert forall|j: int, x: int, y: int|
                #![trigger rooms@[j], at(tiles@, x, y)]
                0 <= j < rooms@.len() && in_grid(x, y) && rooms@[j].contains(x, y) implies at(tiles@, x, y)
                == Tile::Floor by {
                assert(at(prev, x, y) == Tile::Floor);
            }
            assert forall|j: int| 1 <= j < i + 1 implies #[trigger] linked(tiles@, rooms@, j) by {
                if j < i {
                    assert(linked(prev, rooms@, j));
                    let pa = rooms@[j - 1].spec_center();
                    let pb = rooms@[j].spec_center();
                    assert(drawn(rooms@[j - 1]) && drawn(rooms@[j]));
                    lemma_drawn_center(rooms@[j - 1]);
                    lemma_drawn_center(rooms@[j]);
                    assert forall|x: int, y: int| #![trigger at(tiles@, x, y)] corridor_cell(pa, pb, x, y)
                        implies at(tiles@, x, y) == Tile::Floor by {
                        lemma_corridor_interior(pa, pb, x, y);
                        assert(at(prev, x, y) == Tile::Floor);
                    }
                } else {
                    assert(j == i);
                }
            }
            assert forall|x: int, y: int| #![trigger at(tiles@, x, y)]
                in_grid(x, y) && at(tiles@, x, y) == Tile::Floor implies
                    in_some_room(rooms@, rooms@.len() as int, x, y) || on_some_corridor(rooms@, i + 1, x, y) by {
                if at(tiles@, x, y) != at(prev, x, y) {
                    assert(corridor_cell(rooms@[i - 1].spec_center(), rooms@[i as int].spec_center(), x, y));
                } else {
                    assert(at(prev, x, y) == Tile::Floor);
                    if on_some_corridor(rooms@, i as int, x, y) {
                        let c = choose|c: int| 1 <= c < i && #[trigger] corridor_cell(rooms@[c - 1].spec_center(), rooms@[c].spec_center(), x, y);
                        assert(corridor_cell(rooms@[c - 1].spec_center(), rooms@[c].spec_center(), x, y));
                    }
                }
            }
        }
        i = i + 1;
    }
    proof {
        assert forall|x: int, y: int| #![trigger at(tiles@, x, y)]
            in_grid(x, y) && at(tiles@, x, y) == Tile::Floor implies
                in_some_room(rooms@, rooms@.len() as int, x, y) || on_some_corridor(rooms@, rooms@.len() as int, x, y) by {
            if !in_some_room(rooms@, rooms@.len() as int, x, y) {
                assert(on_some_corridor(rooms@, i as int, x, y));
                let c = choose|c: int| 1 <= c < i && #[trigger] corridor_cell(rooms@[c - 1].spec_center(), rooms@[c].spec_center(), x, y);
                assert(rooms@.len() >= 1);
                assert(i == rooms@.len());
                assert(corridor_cell(rooms@[c - 1].spec_center(), rooms@[c].spec_center(), x, y));
            }
        }
    }
    tiles
}

/// Index of the room farthest from the safe room (see `is_far`).
fn far_room(rooms: &Vec<Room>) -> (f: usize)
    requires
        rooms@.len() >= 1,
        forall|i: int| 0 <= i < rooms@.len() ==> drawn(#[trigger] rooms@[i]),
    ensures
        is_far(rooms@, f as int),
{
    let r0 = rooms[0];
    assert(drawn(rooms@[0]));
    let (cx, cy) = r0.center();
    let ghost c = r0.spec_center();
    let mut far_i: usize = rooms.len() - 1;
    let mut far_d: i32 = -1;
    let mut i: usize = 1;
    while i < rooms.len()
        invariant
            1 <= i <= rooms@.len(),
            forall|j: int| 0 <= j < rooms@.len() ==> drawn(#[trigger] rooms@[j]),
            c == rooms@[0].spec_center(),
            cx == c.0,
            cy == c.1,
            far_d == -1 <==> i == 1,
            far_d == -1 ==> far_i == rooms@.len() - 1,
            far_d >= 0 ==> 1 <= far_i < i && far_d == dist(rooms@[far_i as int], c),
            forall|j: int| 1 <= j < i ==> dist(#[trigger] rooms@[j], c) <= far_d,
            forall|j: int| 1 <= j < far_i && j < i ==> dist(#[trigger] rooms@[j], c) < far_d,
            -1 <= far_d <= 200,
        decreases rooms@.len() - i,
    {
        let r = rooms[i];
        assert(drawn(rooms@[i as int]));
        let (rx, ry) = r.center();
        let dx = if rx >= cx { rx - cx } else { cx - rx };
        let dy = if ry >= cy { ry - cy } else { cy - ry };
        let d = dx + dy;
        if d > far_d {
            far_d = d;
            far_i = i;
        }
        i = i + 1;
    }
    far_i
}

/// Lays the safe room over room 0 (campfire at its center) and the stairs
/// at the center of the farthest room; returns that room's index.
fn furnish(tiles: &mut Vec<Tile>, rooms: &Vec<Room>) -> (f: usize)
    requires
        rooms@.len() >= 1,
        forall|i: int| 0 <= i < rooms@.len() ==> drawn(#[trigger] rooms@[i]),
        spaced(rooms@),
        dug(old(tiles)@),
        rooms_floored(old(tiles)@, rooms@, rooms@.len() as int),
    ensures
        is_far(rooms@, f as int),
        furnished(final(tiles)@, rooms@, f as int),
        forall|x: int, y: int|
            #![trigger at(final(tiles)@, x, y)]
            in_grid(x, y) && at(old(tiles)@, x, y).spec_walkable() ==> at(final(tiles)@, x, y).spec_walkable(),
        forall|x: int, y: int|
            #![trigger at(final(tiles)@, x, y)]
            in_grid(x, y) && at(final(tiles)@, x, y).spec_walkable()
                ==> at(old(tiles)@, x, y).spec_walkable() || in_some_room(rooms@, rooms@.len() as int, x, y),
{
    let ghost orig = tiles@;
    let safe = rooms[0];
    assert(drawn(rooms@[0]));
    let mut y = safe.y;
    while y < safe.y + safe.h
        invariant
            drawn(safe),
            safe == rooms@[0],
            safe.y <= y <= safe.y + safe.h,
            tiles@.len() == MAP_W * MAP_H,
            forall|xx: int, yy: int|
                #![trigger at(tiles@, xx, yy)]
                in_grid(xx, yy) ==> at(tiles@, xx, yy) == (if safe.contains(xx, yy) && yy < y {
                    Tile::Safe
                } else {
                    at(orig, xx, yy)
                }),
        decreases safe.y + safe.h - y,
    {
        let mut x = safe.x;
        while x < safe.x + safe.w
            invariant
                drawn(safe),
                safe.y <= y < safe.y + safe.h,
                safe.x <= x <= safe.x + safe.w,
                tiles@.len() == MAP_W * MAP_H,
                forall|xx: int, yy: int|
                    #![trigger at(tiles@, xx, yy)]
                    in_grid(xx, yy) ==> at(tiles@, xx, yy) == (if safe.contains(xx, yy) && (yy < y
                        || (yy == y && xx < x)) {
                        Tile::Safe
                    } else {
                        at(orig, xx, yy)
                    }),
            decreases safe.x + safe.w - x,
        {
            let ghost prev = tiles@;
            tiles.set(y as usize * MAP_W + x as usize, Tile::Safe);
            proof {
                assert forall|xx: int, yy: int| #![trigger at(tiles@, xx, yy)] in_grid(xx, yy) implies
                    at(tiles@, xx, yy) == (if safe.contains(xx, yy) && (yy < y || (yy == y && xx < x + 1)) {
                        Tile::Safe
                    } else {
                        at(orig, xx, yy)
                    }) by {
                    if !(xx == x && yy == y) {
                        assert(at(tiles@, xx, yy) == at(prev, xx, yy));
                    }
                }
            }
            x = x + 1;
        }
        y = y + 1;
    }
    proof { lemma_drawn_center(safe); }
    let (cx, cy) = safe.center();
    let ghost t1 = tiles@;
    tiles.set(cy as usize * MAP_W + cx as usize, Tile::Campfire);
    let ghost t2 = tiles@;
    let f = far_room(rooms);
    let rf = rooms[f];
    proof {
        assert(drawn(rooms@[f as int]));
        lemma_drawn_center(rf);
    }
    let (sx, sy) = rf.center();
    tiles.set(sy as usize * MAP_W + sx as usize, Tile::Stairs);
    proof {
        lemma_furnish_closed_form(orig, t1, t2, tiles@, rooms@, f as int);
        lemma_furnished(orig, tiles@, rooms@, f as int);
        lemma_drawn_center(rooms@[0]);
        assert(drawn(rooms@[f as int]));
        lemma_drawn_center(rooms@[f as int]);
        assert forall|x: int, y: int| #![trigger at(tiles@, x, y)]
            in_grid(x, y) && at(tiles@, x, y).spec_walkable() implies
                at(orig, x, y).spec_walkable() || in_some_room(rooms@, rooms@.len() as int, x, y) by {
            let c0 = rooms@[0].spec_center();
            let cf = rooms@[f as int].spec_center();
            if x == cf.0 && y == cf.1 {
                assert(rooms@[f as int].contains(x, y));
            } else if rooms@[0].contains(x, y) {
                assert(rooms@[0].contains(x, y));
            }
        }
    }
    f
}

/// The tile a furnished level holds at `(x, y)`, given the dug grid.
pub open spec fn furnished_at(orig: Seq<Tile>, rs: Seq<Room>, f: int, x: int, y: int) -> Tile {
    let c0 = rs[0].spec_center();
    let cf = rs[f].spec_center();
    if x == cf.0 && y == cf.1 {
        Tile::Stairs
    } else if x == c0.0 && y == c0.1 {
        Tile::Campfire
    } else if rs[0].contains(x, y) {
        Tile::Safe
    } else {
        at(orig, x, y)
    }
}

proof fn lemma_furnish_closed_form(
    orig: Seq<Tile>,
    s: Seq<Tile>,
    t2: Seq<Tile>,
    t: Seq<Tile>,
    rs: Seq<Room>,
    f: int,
)
    requires
        rs.len() >= 1,
        0 <= f < rs.len(),
        drawn(rs[0]),
        drawn(rs[f]),
        orig.len() == MAP_W * MAP_H,
        s.len() == MAP_W * MAP_H,
        forall|xx: int, yy: int|
            #![trigger at(s, xx, yy)]
            in_grid(xx, yy) ==> at(s, xx, yy) == (if rs[0].contains(xx, yy) {
                Tile::Safe
            } else {
                at(orig, xx, yy)
            }),
        t2 == s.update(rs[0].spec_center().1 * MAP_W + rs[0].spec_center().0, Tile::Campfire),
        t == t2.update(rs[f].spec_center().1 * MAP_W + rs[f].spec_center().0, Tile::Stairs),
    ensures
        t.len() == MAP_W * MAP_H,
        forall|x: int, y: int|
            #![trigger at(t, x, y)]
            in_grid(x, y) ==> at(t, x, y) == furnished_at(orig, rs, f, x, y),
{
    lemma_drawn_center(rs[0]);
    lemma_drawn_center(rs[f]);
    assert forall|x: int, y: int| #![trigger at(t, x, y)] in_grid(x, y) implies at(t, x, y)
        == furnished_at(orig, rs, f, x, y) by {
        let c0 = rs[0].spec_center();
        let cf = rs[f].spec_center();
        if !(x == cf.0 && y == cf.1) {
            assert(at(t, x, y) == at(t2, x, y));
            if !(x == c0.0 && y == c0.1) {
                assert(at(t2, x, y) == at(s, x, y));
            }
        }
    }
}

proof fn lemma_furnished(orig: Seq<Tile>, t: Seq<Tile>, rs: Seq<Room>, f: int)
    requires
        rs.len() >= 1,
        is_far(rs, f),
        forall|i: int| 0 <= i < rs.len() ==> drawn(#[trigger] rs[i]),
        spaced(rs),
        dug(orig),
        rooms_floored(orig, rs, rs.len() as int),
        t.len() == MAP_W * MAP_H,
        forall|x: int, y: int|
            #![trigger at(t, x, y)]
            in_grid(x, y) ==> at(t, x, y) == furnished_at(orig, rs, f, x, y),
    ensures
        furnished(t, rs, f),
{
    let c0 = rs[0].spec_center();
    let cf = rs[f].spec_center();
    assert(drawn(rs[0]));
    assert(drawn(rs[f]));
    lemma_drawn_center(rs[0]);
    lemma_drawn_center(rs[f]);
    if rs.len() > 1 {
        assert(!rs[0].spec_intersects(rs[f]));
    }
    assert(at(t, cf.0, cf.1) == Tile::Stairs);
    assert(at(t, c0.0, c0.1) == (if rs.len() == 1 { Tile::Stairs } else { Tile::Campfire }));
    assert forall|x: int, y: int| #![trigger at(t, x, y)] in_grid(x, y) && !interior(x, y) implies at(t, x, y)
        == Tile::Wall by {
        assert(at(orig, x, y) == Tile::Wall || (at(orig, x, y) == Tile::Floor && interior(x, y)));
    }
    assert forall|j: int, x: int, y: int|
        #![trigger rs[j], at(t, x, y)]
        0 <= j < rs.len() && in_grid(x, y) && rs[j].contains(x, y) implies at(t, x, y).spec_walkable() by {
        assert(at(orig, x, y) == Tile::Floor);
    }
    assert forall|x: int, y: int|
        #![trigger at(t, x, y)]
        in_grid(x, y) && rs[0].contains(x, y) && (x, y) != c0 implies at(t, x, y) == Tile::Safe by {}
    assert forall|x: int, y: int| #![trigger at(t, x, y)] in_grid(x, y) implies {
        &&& at(t, x, y) == Tile::Safe ==> rs[0].contains(x, y)
        &&& at(t, x, y) == Tile::Campfire ==> (x, y) == c0
        &&& at(t, x, y) == Tile::Stairs ==> (x, y) == cf
    } by {
        assert(at(orig, x, y) == Tile::Wall || (at(orig, x, y) == Tile::Floor && interior(x, y)));
    }
}

/// Only one room is the farthest.
proof fn lemma_far_unique(rs: Seq<Room>, f: int, g: int)
    requires
        rs.len() >= 1,
        is_far(rs, f),
        is_far(rs, g),
    ensures
        f == g,
{
    if rs.len() > 1 {
        let c = rs[0].spec_center();
        if f < g {
            assert(dist(rs[f], c) < dist(rs[g], c));
            assert(dist(rs[f], c) <= dist(rs[g], c));
            assert(dist(rs[g], c) <= dist(rs[f], c));
        } else if g < f {
            assert(dist(rs[g], c) < dist(rs[f], c));
            assert(dist(rs[f], c) <= dist(rs[g], c));
        }
    }
}

/// The stairs room of a room list.
pub open spec fn far_of(rs: Seq<Room>) -> int {
    choose|f: int| is_far(rs, f)
}

/// The mob tier a roll in `0..100` yields at `depth`.
pub open spec fn spec_tier_for_roll(depth: int, roll: int) -> i32 {
    if depth == 1 {
        1
    } else if depth == 2 {
        if roll < 75 { 1 } else { 2 }
    } else if 3 <= depth <= 4 {
        if roll < 40 { 1 } else if roll < 85 { 2 } else { 3 }
    } else if 5 <= depth <= 7 {
        if roll < 20 { 1 } else if roll < 60 { 2 } else { 3 }
    } else {
        if roll < 35 { 2 } else { 3 }
    }
}

/// A tier that some roll can yield at `depth`.
pub open spec fn tier_possible(depth: int, tier: int) -> bool {
    exists|roll: int| 0 <= roll < 100 && tier == spec_tier_for_roll(depth, roll)
}

/// The tier of an ordinary mob: deeper floors shift the odds toward tougher tiers.
pub fn tier_for_roll(depth: i32, roll: i32) -> (t: i32)
    ensures
        t == spec_tier_for_roll(depth as int, roll as int),
{
    match depth {
        1 => 1,
        2 => if roll < 75 { 1 } else { 2 },
        3..=4 => if roll < 40 { 1 } else if roll < 85 { 2 } else { 3 },
        5..=7 => if roll < 20 { 1 } else if roll < 60 { 2 } else { 3 },
        _ => if roll < 35 { 2 } else { 3 },
    }
}

fn pick_tier(depth: i32) -> (t: i32)
    ensures
        tier_possible(depth as int, t as int),
{
    let roll = gen_range(0, 100);
    let t = tier_for_roll(depth, roll);
    assert(0 <= roll < 100 && t == spec_tier_for_roll(depth as int, roll as int));
    t
}

/// Where an NPC may stand: inside room 0, off its edge tiles.
pub open spec fn npc_spot_ok(rs: Seq<Room>, s: (usize, usize)) -> bool {
    &&& rs[0].x + 1 <= s.0 < rs[0].x + rs[0].w - 1
    &&& rs[0].y + 1 <= s.1 < rs[0].y + rs[0].h - 1
}

/// Where a mob may spawn: an ordinary mob of a tier `depth` allows on a floor
/// tile; the boss (tier 4) at the stairs on every fifth depth; a tier-5
/// menace next to the stairs on other depths from 2 on.
pub open spec fn mob_spot_ok(t: Seq<Tile>, rs: Seq<Room>, f: int, depth: int, s: (usize, usize, i32)) -> bool {
    let cf = rs[f].spec_center();
    &&& in_grid(s.0 as int, s.1 as int)
    &&& {
        ||| (1 <= s.2 <= 3 && at(t, s.0 as int, s.1 as int) == Tile::Floor && tier_possible(depth, s.2 as int))
        ||| (s.2 == 4 && rem(depth, 5) == 0 && s.0 == cf.0 && s.1 == cf.1)
        ||| (s.2 == 5 && rem(depth, 5) != 0 && depth >= 2 && s.0 == (if cf.0 > 1 { cf.0 } else { 1 })
            && s.1 == (if cf.1 - 1 > 1 { cf.1 - 1 } else { 1 }))
    }
}

/// The boss (tier 4) standing at the centre of room `f`.
pub open spec fn boss_spot(rs: Seq<Room>, f: int, s: (usize, usize, i32)) -> bool {
    &&& s.2 == 4
    &&& s.0 == rs[f].spec_center().0
    &&& s.1 == rs[f].spec_center().1
}

/// Where graffiti may go: an interior wall with walkable ground below.
pub open spec fn graffiti_ok(t: Seq<Tile>, g: Graffiti, gc: int) -> bool {
    &&& 1 <= g.x <= MAP_W - 2
    &&& 1 <= g.y <= MAP_H - 2
    &&& at(t, g.x as int, g.y as int) == Tile::Wall
    &&& at(t, g.x as int, g.y as int + 1).spec_walkable()
    &&& g.text_idx < (if gc > 1 { gc } else { 1 })
}

/// Two scrawls at least four tiles apart along some axis.
pub open spec fn apart(a: Graffiti, b: Graffiti) -> bool {
    a.x - b.x >= 4 || b.x - a.x >= 4 || a.y - b.y >= 4 || b.y - a.y >= 4
}

fn place_npcs(safe: Room) -> (spots: Vec<(usize, usize)>)
    requires
        drawn(safe),
    ensures
        2 <= spots@.len() <= 3,
        forall|i: int| 0 <= i < spots@.len() ==> {
            &&& safe.x + 1 <= (#[trigger] spots@[i]).0 < safe.x + safe.w - 1
            &&& safe.y + 1 <= spots@[i].1 < safe.y + safe.h - 1
        },
{
    let mut spots: Vec<(usize, usize)> = Vec::new();
    let npc_n = gen_range(2, 4);
    let mut k: i32 = 0;
    while k < npc_n
        invariant
            drawn(safe),
            2 <= npc_n < 4,
            0 <= k <= npc_n,
            spots@.len() == k,
            forall|i: int| 0 <= i < spots@.len() ==> {
                &&& safe.x + 1 <= (#[trigger] spots@[i]).0 < safe.x + safe.w - 1
                &&& safe.y + 1 <= spots@[i].1 < safe.y + safe.h - 1
            },
        decreases npc_n - k,
    {
        let nx = gen_range(safe.x + 1, safe.x + safe.w - 1);
        let ny = gen_range(safe.y + 1, safe.y + safe.h - 1);
        spots.push((nx as usize, ny as usize));
        k = k + 1;
    }
    spots
}

fn tile_of(tiles: &Vec<Tile>, x: usize, y: usize) -> (t: Tile)
    requires
        tiles@.len() == MAP_W * MAP_H,
        in_grid(x as int, y as int),
    ensures
        t == at(tiles@, x as int, y as int),
{
    tiles[y * MAP_W + x]
}

/// The draws that furnish one room with loot: the chest roll (out of 100),
/// the chest's spot, the mob count roll (1 to 3), one (x, y, tier roll) per
/// mob spot tried, and the roll (out of 100) for a menace at the stairs.
pub type RoomDraws = (int, (int, int), int, Seq<(int, int, int)>, int);

/// How many mob spots a room tries at `depth`: the count roll plus
/// `min(depth / 3, 3)`.
pub open spec fn mob_tries(depth: int, count_roll: int) -> int {
    let third = quot(depth, 3);
    count_roll + (if third < 3 { third } else { 3 })
}

/// The mobs that the spot draws `spots` give: a spot on floor keeps a mob
/// whose tier comes from its tier roll; any other spot is dropped.
pub open spec fn room_mobs(t: Seq<Tile>, depth: int, spots: Seq<(int, int, int)>) -> Seq<(usize, usize, i32)>
    decreases spots.len(),
{
    if spots.len() == 0 {
        Seq::empty()
    } else {
        let m = room_mobs(t, depth, spots.drop_last());
        let s = spots.last();
        if at(t, s.0, s.1) == Tile::Floor {
            m.push((s.0 as usize, s.1 as usize, spec_tier_for_roll(depth, s.2) as i32))
        } else {
            m
        }
    }
}

/// Draws that room `r` can come out with at `depth`.
pub open spec fn room_draws_ok(r: Room, depth: int, d: RoomDraws) -> bool {
    &&& 0 <= d.0 < 100
    &&& d.0 < 40 ==> r.x + 1 <= d.1.0 < r.x + r.w - 1 && r.y + 1 <= d.1.1 < r.y + r.h - 1
    &&& 1 <= d.2 <= 3
    &&& d.3.len() == (if mob_tries(depth, d.2) > 0 { mob_tries(depth, d.2) } else { 0 })
    &&& forall|k: int| 0 <= k < d.3.len() ==> {
        &&& r.x <= (#[trigger] d.3[k]).0 < r.x + r.w
        &&& r.y <= d.3[k].1 < r.y + r.h
        &&& 0 <= d.3[k].2 < 100
    }
    &&& 0 <= d.4 < 100
}

/// The chest and mobs that room `i` gets from its draws: a chest when the
/// chest roll is below 40 and its spot is floor; the mobs of its spots; and
/// in the stairs room `f` the boss at the centre on every fifth depth, or,
/// from depth 2 on, a menace just above the centre when the menace roll is
/// below 35.
pub open spec fn room_loot(t: Seq<Tile>, rs: Seq<Room>, depth: int, f: int, i: int, d: RoomDraws) -> (
    Seq<(usize, usize)>,
    Seq<(usize, usize, i32)>,
) {
    let c = rs[i].spec_center();
    let chest = if d.0 < 40 && at(t, d.1.0, d.1.1) == Tile::Floor {
        seq![(d.1.0 as usize, d.1.1 as usize)]
    } else {
        Seq::empty()
    };
    let guard = if rem(depth, 5) == 0 && i == f {
        seq![(c.0 as usize, c.1 as usize, 4i32)]
    } else if rem(depth, 5) != 0 && depth >= 2 && i == f && d.4 < 35 {
        seq![((if c.0 > 1 { c.0 } else { 1 }) as usize, (if c.1 - 1 > 1 { c.1 - 1 } else { 1 }) as usize, 5i32)]
    } else {
        Seq::empty()
    };
    (chest, room_mobs(t, depth, d.3) + guard)
}

/// The chests and mobs of rooms `1..n`, room `i` furnished from `draws[i]`.
pub open spec fn rooms_loot(t: Seq<Tile>, rs: Seq<Room>, depth: int, f: int, draws: Seq<RoomDraws>, n: int) -> (
    Seq<(usize, usize)>,
    Seq<(usize, usize, i32)>,
)
    decreases n,
{
    if n <= 1 {
        (Seq::empty(), Seq::empty())
    } else {
        let prev = rooms_loot(t, rs, depth, f, draws, n - 1);
        let here = room_loot(t, rs, depth, f, n - 1, draws[n - 1]);
        (prev.0 + here.0, prev.1 + here.1)
    }
}

/// Draws for every room but the safe one (whose entry is not read).
pub open spec fn loot_draws_ok(rs: Seq<Room>, depth: int, draws: Seq<RoomDraws>) -> bool {
    &&& draws.len() == rs.len()
    &&& forall|i: int| 1 <= i < rs.len() ==> room_draws_ok(rs[i], depth, #[trigger] draws[i])
}

proof fn lemma_rooms_loot_prefix(t: Seq<Tile>, rs: Seq<Room>, depth: int, f: int, d1: Seq<RoomDraws>, d2: Seq<RoomDraws>, n: int)
    requires
        forall|j: int| 1 <= j < n ==> d1[j] == d2[j],
    ensures
        rooms_loot(t, rs, depth, f, d1, n) == rooms_loot(t, rs, depth, f, d2, n),
    decreases n,
{
    if n > 1 {
        lemma_rooms_loot_prefix(t, rs, depth, f, d1, d2, n - 1);
    }
}

/// Room `i`'s chest draw puts a chest on the map exactly when the roll is
/// below 40 and the drawn spot is floor.
proof fn lemma_rooms_loot_chests(t: Seq<Tile>, rs: Seq<Room>, depth: int, f: int, draws: Seq<RoomDraws>, n: int, c: (usize, usize))
    ensures
        rooms_loot(t, rs, depth, f, draws, n).0.contains(c) <==> exists|i: int| 1 <= i < n && #[trigger] chest_at_draw(t, draws[i], c),
    decreases n,
{
    if n > 1 {
        lemma_rooms_loot_chests(t, rs, depth, f, draws, n - 1, c);
        let prev = rooms_loot(t, rs, depth, f, draws, n - 1).0;
        let here = room_loot(t, rs, depth, f, n - 1, draws[n - 1]).0;
        assert(rooms_loot(t, rs, depth, f, draws, n).0 == prev + here);
        if (prev + here).contains(c) {
            let k = choose|k: int| 0 <= k < (prev + here).len() && (prev + here)[k] == c;
            if k < prev.len() {
                assert(prev[k] == c);
            } else {
                assert(here[k - prev.len()] == c);
                assert(chest_at_draw(t, draws[n - 1], c));
            }
        }
        if exists|i: int| 1 <= i < n && #[trigger] chest_at_draw(t, draws[i], c) {
            let i = choose|i: int| 1 <= i < n && #[trigger] chest_at_draw(t, draws[i], c);
            if i < n - 1 {
                let k = choose|k: int| 0 <= k < prev.len() && prev[k] == c;
                assert((prev + here)[k] == c);
            } else {
                assert(here[0] == c);
                assert((prev + here)[prev.len() as int] == c);
            }
        }
    }
}

/// Whether a room's draws put its chest at `c`: a chest roll below 40 and
/// the drawn spot, which is `c`, on floor.
pub open spec fn chest_at_draw(t: Seq<Tile>, d: RoomDraws, c: (usize, usize)) -> bool {
    &&& d.0 < 40
    &&& at(t, d.1.0, d.1.1) == Tile::Floor
    &&& c == (d.1.0 as usize, d.1.1 as usize)
}

/// The chests of a generated level, for the draws it was made with: every
/// room but the safe one whose chest roll (out of 100) is below 40 and whose
/// drawn spot is floor has a chest on that spot, and every chest is such a
/// room's chest.
pub proof fn lemma_generated_chests(m: DungeonMap, depth: int, gc: int)
    requires
        generated(m, depth, gc),
    ensures
        exists|draws: Seq<RoomDraws>| #![trigger loot_draws_ok(m.rooms@, depth, draws)] {
            &&& loot_draws_ok(m.rooms@, depth, draws)
            &&& forall|i: int| 1 <= i < m.rooms@.len() && (#[trigger] draws[i]).0 < 40
                && at(m.tiles@, draws[i].1.0, draws[i].1.1) == Tile::Floor
                ==> m.chest_spots@.contains((draws[i].1.0 as usize, draws[i].1.1 as usize))
            &&& forall|c: (usize, usize)| #[trigger] m.chest_spots@.contains(c) ==> exists|i: int|
                1 <= i < m.rooms@.len() && (#[trigger] draws[i]).0 < 40
                && at(m.tiles@, draws[i].1.0, draws[i].1.1) == Tile::Floor
                && c == (draws[i].1.0 as usize, draws[i].1.1 as usize)
        },
{
    let rs = m.rooms@;
    let t = m.tiles@;
    let f = far_of(rs);
    let draws = choose|draws: Seq<RoomDraws>| #![trigger loot_draws_ok(rs, depth, draws)]
        loot_draws_ok(rs, depth, draws) && (m.chest_spots@, m.mob_spots@) == rooms_loot(t, rs, depth, f, draws, rs.len() as int);
    assert(m.chest_spots@ == rooms_loot(t, rs, depth, f, draws, rs.len() as int).0);
    assert forall|i: int| 1 <= i < rs.len() && (#[trigger] draws[i]).0 < 40
        && at(t, draws[i].1.0, draws[i].1.1) == Tile::Floor
        implies m.chest_spots@.contains((draws[i].1.0 as usize, draws[i].1.1 as usize)) by {
        let c = (draws[i].1.0 as usize, draws[i].1.1 as usize);
        assert(room_draws_ok(rs[i], depth, draws[i]));
        assert(drawn(rs[i]));
        assert(chest_at_draw(t, draws[i], c));
        lemma_rooms_loot_chests(t, rs, depth, f, draws, rs.len() as int, c);
    }
    assert forall|c: (usize, usize)| #[trigger] m.chest_spots@.contains(c) implies exists|i: int|
        1 <= i < rs.len() && (#[trigger] draws[i]).0 < 40
        && at(t, draws[i].1.0, draws[i].1.1) == Tile::Floor
        && c == (draws[i].1.0 as usize, draws[i].1.1 as usize) by {
        lemma_rooms_loot_chests(t, rs, depth, f, draws, rs.len() as int, c);
        let i = choose|i: int| 1 <= i < rs.len() && #[trigger] chest_at_draw(t, draws[i], c);
        assert(chest_at_draw(t, draws[i], c));
    }
}

/// Chests (40% of rooms) and mobs in every room but the safe one, plus the
/// boss or a menace guarding the stairs; see `rooms_loot` for what the
/// draws give.
fn place_loot(tiles: &Vec<Tile>, rooms: &Vec<Room>, depth: i32, far_i: usize) -> (res: (
    Vec<(usize, usize)>,
    Vec<(usize, usize, i32)>,
))
    requires
        tiles@.len() == MAP_W * MAP_H,
        forall|i: int| 0 <= i < rooms@.len() ==> drawn(#[trigger] rooms@[i]),
        far_i < rooms@.len(),
    ensures
        res.0@.len() < rooms@.len(),
        forall|i: int|
            0 <= i < res.0@.len() ==> in_grid((#[trigger] res.0@[i]).0 as int, res.0@[i].1 as int)
                && at(tiles@, res.0@[i].0 as int, res.0@[i].1 as int) == Tile::Floor,
        forall|i: int|
            0 <= i < res.1@.len() ==> mob_spot_ok(tiles@, rooms@, far_i as int, depth as int, #[trigger] res.1@[i]),
        rem(depth as int, 5) == 0 && far_i >= 1 ==> exists|j: int|
            0 <= j < res.1@.len() && #[trigger] boss_spot(rooms@, far_i as int, res.1@[j]),
        rooms@.len() <= 1 ==> res.1@.len() == 0,
        exists|draws: Seq<RoomDraws>| #![trigger loot_draws_ok(rooms@, depth as int, draws)]
            loot_draws_ok(rooms@, depth as int, draws)
            && (res.0@, res.1@) == rooms_loot(tiles@, rooms@, depth as int, far_i as int, draws, rooms@.len() as int),
{
    let mut chests: Vec<(usize, usize)> = Vec::new();
    let mut mobs: Vec<(usize, usize, i32)> = Vec::new();
    let ghost mut bj: int = -1;
    let ghost mut draws: Seq<RoomDraws> = seq![(0int, (0int, 0int), 1int, Seq::<(int, int, int)>::empty(), 0int)];
    let mut i: usize = 1;
    while i < rooms.len()
        invariant
            i == 1 ==> mobs@.len() == 0,
            rem(depth as int, 5) == 0 && 1 <= far_i < i ==> 0 <= bj < mobs@.len() && boss_spot(rooms@, far_i as int, mobs@[bj]),
            tiles@.len() == MAP_W * MAP_H,
            forall|j: int| 0 <= j < rooms@.len() ==> drawn(#[trigger] rooms@[j]),
            far_i < rooms@.len(),
            1 <= i <= rooms@.len(),
            chests@.len() < i,
            forall|j: int|
                0 <= j < chests@.len() ==> in_grid((#[trigger] chests@[j]).0 as int, chests@[j].1 as int)
                    && at(tiles@, chests@[j].0 as int, chests@[j].1 as int) == Tile::Floor,
            forall|j: int|
                0 <= j < mobs@.len() ==> mob_spot_ok(tiles@, rooms@, far_i as int, depth as int, #[trigger] mobs@[j]),
            draws.len() == i,
            forall|j: int| 1 <= j < i ==> room_draws_ok(rooms@[j], depth as int, #[trigger] draws[j]),
            (chests@, mobs@) == rooms_loot(tiles@, rooms@, depth as int, far_i as int, draws, i as int),
        decreases rooms@.len() - i,
    {
        let r = rooms[i];
        assert(drawn(rooms@[i as int]));
        let ghost chests0 = chests@;
        let ghost mobs0 = mobs@;
        let chest_roll = gen_range(0, 100);
        let ghost mut chest_at: (int, int) = (0, 0);
        if chest_roll < 40 {
            let gx = gen_range(r.x + 1, r.x + r.w - 1) as usize;
            let gy = gen_range(r.y + 1, r.y + r.h - 1) as usize;
            proof { chest_at = (gx as int, gy as int); }
            if tile_of(tiles, gx, gy) == Tile::Floor {
                chests.push((gx, gy));
            }
        }
        let third = depth / 3;
        let extra = if third < 3 { third } else { 3 };
        let count_roll = gen_range(1, 4);
        let mob_n = count_roll + extra;
        assert(mob_n as int == mob_tries(depth as int, count_roll as int));
        let ghost mut spots: Seq<(int, int, int)> = Seq::empty();
        let mut k: i32 = 0;
        while k < mob_n
            invariant
                tiles@.len() == MAP_W * MAP_H,
                forall|j: int| 0 <= j < rooms@.len() ==> drawn(#[trigger] rooms@[j]),
                drawn(r),
                far_i < rooms@.len(),
                0 <= k,
                k <= mob_n || k == 0,
                spots.len() == k,
                forall|q: int| 0 <= q < spots.len() ==> {
                    &&& r.x <= (#[trigger] spots[q]).0 < r.x + r.w
                    &&& r.y <= spots[q].1 < r.y + r.h
                    &&& 0 <= spots[q].2 < 100
                },
                mobs@ == mobs0 + room_mobs(tiles@, depth as int, spots),
                forall|j: int|
                    0 <= j < mobs@.len() ==> mob_spot_ok(tiles@, rooms@, far_i as int, depth as int, #[trigger] mobs@[j]),
                rem(depth as int, 5) == 0 && 1 <= far_i < i ==> 0 <= bj < mobs@.len() && boss_spot(rooms@, far_i as int, mobs@[bj]),
            decreases mob_n - k,
        {
            let gx = gen_range(r.x, r.x + r.w) as usize;
            let gy = gen_range(r.y, r.y + r.h) as usize;
            let ghost mut tier_roll: int = 0;
            let ghost before = mobs@;
            if tile_of(tiles, gx, gy) == Tile::Floor {
                let tier = pick_tier(depth);
                proof {
                    tier_roll = choose|roll: int| 0 <= roll < 100 && tier == spec_tier_for_roll(depth as int, roll);
                }
                mobs.push((gx, gy, tier));
            }
            proof {
                let s2 = spots.push((gx as int, gy as int, tier_roll));
                assert(s2.drop_last() =~= spots);
                assert(mobs@ =~= mobs0 + room_mobs(tiles@, depth as int, s2));
                spots = s2;
            }
            k = k + 1;
        }
        let ghost mobs1 = mobs@;
        if depth % 5 == 0 && i == far_i {
            let (bx, by) = r.center();
            proof { lemma_drawn_center(r); }
            mobs.push((bx as usize, by as usize, 4));
            proof { bj = mobs@.len() - 1; }
        }
        let mut menace_roll: i32 = 0;
        if depth % 5 != 0 && depth >= 2 && i == far_i {
            menace_roll = gen_range(0, 100);
            if menace_roll < 35 {
                let (bx, by) = r.center();
                proof { lemma_drawn_center(r); }
                let mx = if bx > 1 { bx } else { 1 };
                let my = if by - 1 > 1 { by - 1 } else { 1 };
                mobs.push((mx as usize, my as usize, 5));
            }
        }
        proof {
            let d: RoomDraws = (chest_roll as int, chest_at, count_roll as int, spots, menace_roll as int);
            let draws2 = draws.push(d);
            lemma_rooms_loot_prefix(tiles@, rooms@, depth as int, far_i as int, draws, draws2, i as int);
            assert(spots.len() == (if mob_tries(depth as int, count_roll as int) > 0 { mob_tries(depth as int, count_roll as int) } else { 0 }));
            assert(room_draws_ok(rooms@[i as int], depth as int, d));
            let here = room_loot(tiles@, rooms@, depth as int, far_i as int, i as int, d);
            assert(chests@ =~= chests0 + here.0);
            assert(mobs@ =~= mobs0 + here.1);
            assert(draws2[i as int] == d);
            draws = draws2;
        }
        i = i + 1;
    }
    proof {
        if rem(depth as int, 5) == 0 && far_i >= 1 {
            assert(boss_spot(rooms@, far_i as int, mobs@[bj]));
        }
        assert(loot_draws_ok(rooms@, depth as int, draws));
    }
    let ghost mv = mobs@;
    let ghost cv = chests@;
    let out = (chests, mobs);
    proof {
        if rem(depth as int, 5) == 0 && far_i >= 1 {
            assert(out.1@ == mv);
            assert(boss_spot(rooms@, far_i as int, out.1@[bj]));
        }
        assert(out.0@ == cv && out.1@ == mv);
    }
    out
}

/// Whether a scrawl fits at `(x, y)` beside the scrawls `gs` already up: a
/// wall above walkable ground, at least four tiles from each of them.
pub open spec fn scrawl_fits(t: Seq<Tile>, gs: Seq<Graffiti>, x: int, y: int) -> bool {
    &&& at(t, x, y) == Tile::Wall
    &&& at(t, x, y + 1).spec_walkable()
    &&& forall|i: int| 0 <= i < gs.len() ==> apart(#[trigger] gs[i], Graffiti { x: x as usize, y: y as usize, text_idx: 0 })
}

/// The scrawls a run of tries puts up, each try a spot `(x, y)` and the text
/// drawn for it: a try puts its scrawl up while fewer than `want` are up and
/// it fits there.
pub open spec fn scrawls_put_up(t: Seq<Tile>, want: int, tries: Seq<(int, int, int)>) -> Seq<Graffiti>
    decreases tries.len(),
{
    if tries.len() == 0 {
        Seq::empty()
    } else {
        let g = scrawls_put_up(t, want, tries.drop_last());
        let c = tries.last();
        if g.len() < want && scrawl_fits(t, g, c.0, c.1) {
            g.push(Graffiti { x: c.0 as usize, y: c.1 as usize, text_idx: c.2 as usize })
        } else {
            g
        }
    }
}

/// How many scrawls a level wants: one per line of graffiti, at most six.
pub open spec fn scrawl_want(gc: int) -> int {
    if gc < 6 { gc } else { 6 }
}

/// How many texts a scrawl's text index is drawn from (at least one).
pub open spec fn scrawl_pool(gc: int) -> int {
    if gc > 1 { gc } else { 1 }
}

/// A try draws an interior spot and a text index below `pool`.
pub open spec fn scrawl_try_ok(c: (int, int, int), pool: int) -> bool {
    &&& 1 <= c.0 <= MAP_W - 2
    &&& 1 <= c.1 <= MAP_H - 2
    &&& 0 <= c.2 < pool
}

/// Up to `min(graffiti_count, 6)` scrawls on walls that touch walkable ground,
/// kept apart from each other: random tries, each put up where it fits, until
/// enough are up or 500 tries are spent.
fn place_graffiti(tiles: &Vec<Tile>, graffiti_count: usize) -> (gs: Vec<Graffiti>)
    requires
        tiles@.len() == MAP_W * MAP_H,
        graffiti_count <= i32::MAX,
    ensures
        gs@.len() <= 6,
        gs@.len() <= graffiti_count,
        forall|i: int| 0 <= i < gs@.len() ==> graffiti_ok(tiles@, #[trigger] gs@[i], graffiti_count as int),
        forall|i: int, j: int|
            0 <= i < gs@.len() && 0 <= j < gs@.len() && i != j ==> apart(#[trigger] gs@[i], #[trigger] gs@[j]),
        exists|tries: Seq<(int, int, int)>| {
            &&& tries.len() <= 500
            &&& forall|i: int| 0 <= i < tries.len() ==> scrawl_try_ok(#[trigger] tries[i], scrawl_pool(graffiti_count as int))
            &&& gs@ == #[trigger] scrawls_put_up(tiles@, scrawl_want(graffiti_count as int), tries)
            &&& (gs@.len() == scrawl_want(graffiti_count as int) || tries.len() == 500)
        },
{
    let mut gs: Vec<Graffiti> = Vec::new();
    let want: usize = if graffiti_count < 6 { graffiti_count } else { 6 };
    let pool: i32 = if graffiti_count > 1 { graffiti_count as i32 } else { 1 };
    let mut placed: usize = 0;
    let mut tries: u32 = 0;
    let ghost mut tr: Seq<(int, int, int)> = Seq::empty();
    while placed < want && tries < 500
        invariant
            tiles@.len() == MAP_W * MAP_H,
            want <= 6,
            want <= graffiti_count,
            want == (if graffiti_count < 6 { graffiti_count as int } else { 6 }),
            pool == (if graffiti_count > 1 { graffiti_count as int } else { 1 }),
            placed == gs@.len(),
            placed <= want,
            tries <= 500,
            tr.len() == tries,
            forall|i: int| 0 <= i < tr.len() ==> scrawl_try_ok(#[trigger] tr[i], pool as int),
            gs@ == scrawls_put_up(tiles@, want as int, tr),
            forall|i: int| 0 <= i < gs@.len() ==> graffiti_ok(tiles@, #[trigger] gs@[i], graffiti_count as int),
            forall|i: int, j: int|
                0 <= i < gs@.len() && 0 <= j < gs@.len() && i != j ==> apart(#[trigger] gs@[i], #[trigger] gs@[j]),
        decreases 500 - tries,
    {
        tries = tries + 1;
        let x = gen_range(1, MAP_W as i32 - 1);
        let y = gen_range(1, MAP_H as i32 - 1);
        let ghost prev = gs@;
        let ghost mut text_roll: int = 0;
        let ghost mut fits: bool = false;
        if tile_of(tiles, x as usize, y as usize) == Tile::Wall && tile_of(tiles, x as usize, y as usize + 1).walkable() {
            let mut crowded = false;
            let mut k: usize = 0;
            while k < gs.len()
                invariant
                    k <= gs@.len(),
                    1 <= x <= MAP_W - 2,
                    1 <= y <= MAP_H - 2,
                    tiles@.len() == MAP_W * MAP_H,
                    forall|i: int| 0 <= i < gs@.len() ==> graffiti_ok(tiles@, #[trigger] gs@[i], graffiti_count as int),
                    !crowded <==> forall|i: int| 0 <= i < k ==> apart(#[trigger] gs@[i], Graffiti { x: x as usize, y: y as usize, text_idx: 0 }),
                decreases gs@.len() - k,
            {
                let g = gs[k];
                let dx = if g.x as i32 >= x { g.x as i32 - x } else { x - g.x as i32 };
                let dy = if g.y as i32 >= y { g.y as i32 - y } else { y - g.y as i32 };
                if dx < 4 && dy < 4 {
                    crowded = true;
                    assert(!apart(gs@[k as int], Graffiti { x: x as usize, y: y as usize, text_idx: 0 }));
                }
                k = k + 1;
            }
            if !crowded {
                proof { fits = true; }
                let text_idx = gen_range(0, pool) as usize;
                proof { text_roll = text_idx as int; }
                let ng = Graffiti { x: x as usize, y: y as usize, text_idx };
                gs.push(ng);
                proof {
                    assert forall|i: int, j: int|
                        0 <= i < gs@.len() && 0 <= j < gs@.len() && i != j implies apart(#[trigger] gs@[i], #[trigger] gs@[j]) by {
                        if i < prev.len() && j < prev.len() {
                            assert(gs@[i] == prev[i] && gs@[j] == prev[j]);
                        } else if i == prev.len() {
                            assert(apart(prev[j], Graffiti { x: x as usize, y: y as usize, text_idx: 0 }));
                        } else {
                            assert(apart(prev[i], Graffiti { x: x as usize, y: y as usize, text_idx: 0 }));
                        }
                    }
                }
                placed = placed + 1;
            }
        }
        proof {
            let c = (x as int, y as int, text_roll);
            let tr2 = tr.push(c);
            assert(tr2.drop_last() =~= tr);
            assert(fits == scrawl_fits(tiles@, prev, x as int, y as int));
            tr = tr2;
        }
    }
    proof {
        assert(want as int == scrawl_want(graffiti_count as int));
        assert(pool as int == scrawl_pool(graffiti_count as int));
        assert(gs@ == scrawls_put_up(tiles@, scrawl_want(graffiti_count as int), tr));
        assert(forall|i: int| 0 <= i < tr.len() ==> scrawl_try_ok(#[trigger] tr[i], scrawl_pool(graffiti_count as int)));
        assert(gs@.len() == scrawl_want(graffiti_count as int) || tr.len() == 500);
    }
    gs
}

/// What a generated level promises: a 72x54 grid of up to 400 (and, from
/// depth 0 on, at most 14 + min(depth, 10)) well-spaced rooms, each joined
/// to the one before it by a walkable L-shaped corridor between their
/// centres; room 0 the
/// safe room with the campfire and the spawn just below it; the stairs in the
/// room farthest from it, guarded by the boss on every fifth depth; a shop on
/// odd depths; NPCs in the safe room; chests
/// on floor; mobs as `mob_spot_ok` allows; chests and mobs as `rooms_loot`
/// gives them for some draws; graffiti as `graffiti_ok` allows.
pub open spec fn generated(m: DungeonMap, depth: int, gc: int) -> bool {
    let rs = m.rooms@;
    let t = m.tiles@;
    let f = far_of(rs);
    let c0 = rs[0].spec_center();
    &&& m.w == MAP_W && m.h == MAP_H && m.wf()
    &&& 1 <= rs.len() <= 400
    &&& depth >= 0 ==> rs.len() <= 14 + (if depth < 10 { depth } else { 10 })
    &&& forall|i: int| 0 <= i < rs.len() ==> drawn(#[trigger] rs[i])
    &&& forall|i: int| 1 <= i < rs.len() ==> #[trigger] linked_walkable(t, rs, i)
    &&& forall|x: int, y: int|
        #![trigger at(t, x, y)]
        in_grid(x, y) && at(t, x, y).spec_walkable() ==> in_some_room(rs, rs.len() as int, x, y)
            || on_some_corridor(rs, rs.len() as int, x, y)
    &&& spaced(rs)
    &&& is_far(rs, f)
    &&& furnished(t, rs, f)
    &&& m.spawn.0 == SUBTILE * c0.0 + 500
    &&& m.spawn.1 == SUBTILE * c0.1 + 1800
    &&& m.has_shop == (rem(depth, 2) == 1)
    &&& 2 <= m.npc_spots@.len() <= 3
    &&& forall|i: int| 0 <= i < m.npc_spots@.len() ==> npc_spot_ok(rs, #[trigger] m.npc_spots@[i])
    &&& m.chest_spots@.len() < rs.len()
    &&& forall|i: int|
        0 <= i < m.chest_spots@.len() ==> in_grid((#[trigger] m.chest_spots@[i]).0 as int, m.chest_spots@[i].1 as int)
            && at(t, m.chest_spots@[i].0 as int, m.chest_spots@[i].1 as int) == Tile::Floor
    &&& forall|i: int| 0 <= i < m.mob_spots@.len() ==> mob_spot_ok(t, rs, f, depth, #[trigger] m.mob_spots@[i])
    &&& rem(depth, 5) == 0 && rs.len() > 1 ==> exists|j: int|
        0 <= j < m.mob_spots@.len() && #[trigger] boss_spot(rs, f, m.mob_spots@[j])
    &&& rs.len() == 1 ==> m.mob_spots@.len() == 0
    &&& exists|draws: Seq<RoomDraws>| #![trigger loot_draws_ok(rs, depth, draws)]
        loot_draws_ok(rs, depth, draws) && (m.chest_spots@, m.mob_spots@) == rooms_loot(t, rs, depth, f, draws, rs.len() as int)
    &&& m.graffiti@.len() <= 6 && m.graffiti@.len() <= gc
    &&& forall|i: int| 0 <= i < m.graffiti@.len() ==> graffiti_ok(t, #[trigger] m.graffiti@[i], gc)
    &&& forall|i: int, j: int|
        0 <= i < m.graffiti@.len() && 0 <= j < m.graffiti@.len() && i != j ==> apart(
            #[trigger] m.graffiti@[i],
            #[trigger] m.graffiti@[j],
        )
}

/// A procedural level for `depth` (see `generated` for what it promises).
/// Room 0 is always the safe room (campfire, NPCs, a shop on every other
/// depth); the room farthest from it holds the stairs down.
pub fn generate(depth: i32, graffiti_count: usize) -> (map: DungeonMap)
    requires
        depth >= 0 || depth < -14,
        graffiti_count <= i32::MAX,
    ensures
        generated(map, depth as int, graffiti_count as int),
{
    // A negative depth asks for more rooms than 400 tries can ever draw;
    // every such target behaves the same.
    let target: usize = if depth < 0 { usize::MAX } else if depth < 10 { 14 + depth as usize } else { 24 };
    let rooms = draw_rooms(target);
    let mut tiles = dig(&rooms);
    let ghost dug_tiles = tiles@;
    let far_i = furnish(&mut tiles, &rooms);
    proof {
        assert forall|i: int| 1 <= i < rooms@.len() implies #[trigger] linked_walkable(tiles@, rooms@, i) by {
            assert(linked(dug_tiles, rooms@, i));
            let pa = rooms@[i - 1].spec_center();
            let pb = rooms@[i].spec_center();
            assert(drawn(rooms@[i - 1]) && drawn(rooms@[i]));
            lemma_drawn_center(rooms@[i - 1]);
            lemma_drawn_center(rooms@[i]);
            assert forall|x: int, y: int| #![trigger at(tiles@, x, y)] corridor_cell(pa, pb, x, y)
                implies at(tiles@, x, y).spec_walkable() by {
                lemma_corridor_interior(pa, pb, x, y);
                assert(at(dug_tiles, x, y) == Tile::Floor);
            }
        }
        assert forall|x: int, y: int| #![trigger at(tiles@, x, y)]
            in_grid(x, y) && at(tiles@, x, y).spec_walkable() implies in_some_room(rooms@, rooms@.len() as int, x, y)
                || on_some_corridor(rooms@, rooms@.len() as int, x, y) by {
            if !in_some_room(rooms@, rooms@.len() as int, x, y) {
                assert(at(dug_tiles, x, y).spec_walkable());
                assert(at(dug_tiles, x, y) == Tile::Floor);
            }
        }
    }
    let safe = rooms[0];
    assert(drawn(rooms@[0]));
    proof {
        lemma_drawn_center(safe);
        lemma_far_unique(rooms@, far_i as int, far_of(rooms@));
    }
    let (cx, cy) = safe.center();
    let npc_spots = place_npcs(safe);
    let (chest_spots, mob_spots) = place_loot(&tiles, &rooms, depth, far_i);
    let ghost rv = rooms@;
    let ghost mv = mob_spots@;
    let ghost cv = chest_spots@;
    let graffiti = place_graffiti(&tiles, graffiti_count);
    let map = DungeonMap {
        w: MAP_W,
        h: MAP_H,
        tiles,
        rooms,
        spawn: ((cx as i64) * SUBTILE + 500, (cy as i64) * SUBTILE + 1800),
        graffiti,
        chest_spots,
        mob_spots,
        npc_spots,
        has_shop: depth % 2 == 1,
    };
    proof {
        if rem(depth as int, 5) == 0 && rv.len() > 1 {
            let bj = choose|j: int| 0 <= j < mv.len() && #[trigger] boss_spot(rv, far_i as int, mv[j]);
            assert(boss_spot(map.rooms@, far_of(map.rooms@), map.mob_spots@[bj]));
        }
        let draws = choose|draws: Seq<RoomDraws>| #![trigger loot_draws_ok(rv, depth as int, draws)]
            loot_draws_ok(rv, depth as int, draws)
            && (cv, mv) == rooms_loot(map.tiles@, rv, depth as int, far_i as int, draws, rv.len() as int);
        assert(loot_draws_ok(map.rooms@, depth as int, draws));
    }
    map
}

// ---------- walking through a level ----------

/// Tile `p` of a generated-size grid is on the grid and can be walked on.
pub open spec fn open_at(t: Seq<Tile>, p: (int, int)) -> bool {
    in_grid(p.0, p.1) && at(t, p.0, p.1).spec_walkable()
}

/// Two tiles side by side (one step along x or along y).
pub open spec fn adjacent(p: (int, int), q: (int, int)) -> bool {
    ||| p.0 == q.0 && (p.1 - q.1 == 1 || q.1 - p.1 == 1)
    ||| p.1 == q.1 && (p.0 - q.0 == 1 || q.0 - p.0 == 1)
}

/// A walk: walkable tiles, each a step from the one before.
pub open spec fn is_walk(t: Seq<Tile>, path: Seq<(int, int)>) -> bool {
    &&& path.len() >= 1
    &&& forall|i: int| 0 <= i < path.len() ==> open_at(t, #[trigger] path[i])
    &&& forall|i: int| 0 <= i < path.len() - 1 ==> #[trigger] adjacent(path[i], path[i + 1])
}

/// Whether one can walk from `a` to `b`.
pub open spec fn joined(t: Seq<Tile>, a: (int, int), b: (int, int)) -> bool {
    exists|path: Seq<(int, int)>| #[trigger] is_walk(t, path) && path[0] == a && path.last() == b
}

proof fn lemma_joined_refl(t: Seq<Tile>, a: (int, int))
    requires
        open_at(t, a),
    ensures
        joined(t, a, a),
{
    let path = seq![a];
    assert(is_walk(t, path));
}

proof fn lemma_joined_step(t: Seq<Tile>, a: (int, int), b: (int, int))
    requires
        open_at(t, a),
        open_at(t, b),
        adjacent(a, b) || a == b,
    ensures
        joined(t, a, b),
{
    if a == b {
        lemma_joined_refl(t, a);
    } else {
        let path = seq![a, b];
        assert(is_walk(t, path));
    }
}

proof fn lemma_joined_trans(t: Seq<Tile>, a: (int, int), b: (int, int), c: (int, int))
    requires
        joined(t, a, b),
        joined(t, b, c),
    ensures
        joined(t, a, c),
{
    let p1 = choose|path: Seq<(int, int)>| #[trigger] is_walk(t, path) && path[0] == a && path.last() == b;
    let p2 = choose|path: Seq<(int, int)>| #[trigger] is_walk(t, path) && path[0] == b && path.last() == c;
    let p = p1 + p2.drop_first();
    assert forall|i: int| 0 <= i < p.len() implies open_at(t, #[trigger] p[i]) by {
        if i < p1.len() {
            assert(p[i] == p1[i]);
        } else {
            assert(p[i] == p2[i - p1.len() + 1]);
        }
    }
    assert forall|i: int| 0 <= i < p.len() - 1 implies #[trigger] adjacent(p[i], p[i + 1]) by {
        if i < p1.len() - 1 {
            assert(p[i] == p1[i] && p[i + 1] == p1[i + 1]);
        } else if i == p1.len() - 1 {
            assert(p[i] == p1[i]);
            assert(p1[i] == p2[0]);
            assert(p[i + 1] == p2[1]);
        } else {
            assert(p[i] == p2[i - p1.len() + 1] && p[i + 1] == p2[i - p1.len() + 2]);
        }
    }
    assert(is_walk(t, p));
    if p2.len() == 1 {
        assert(p.last() == p1.last());
    } else {
        assert(p.last() == p2.last());
    }
}

proof fn lemma_joined_sym(t: Seq<Tile>, a: (int, int), b: (int, int))
    requires
        joined(t, a, b),
    ensures
        joined(t, b, a),
{
    let p = choose|path: Seq<(int, int)>| #[trigger] is_walk(t, path) && path[0] == a && path.last() == b;
    let n = p.len() as int;
    let q = Seq::new(p.len(), |i: int| p[n - 1 - i]);
    assert forall|i: int| 0 <= i < q.len() implies open_at(t, #[trigger] q[i]) by {
        assert(q[i] == p[n - 1 - i]);
    }
    assert forall|i: int| 0 <= i < q.len() - 1 implies #[trigger] adjacent(q[i], q[i + 1]) by {
        assert(adjacent(p[n - 2 - i], p[n - 2 - i + 1]));
    }
    assert(is_walk(t, q));
}

/// A straight run along row `y` from `x0` to `x1`, every tile walkable.
proof fn lemma_joined_row(t: Seq<Tile>, y: int, x0: int, x1: int)
    requires
        forall|x: int| #![trigger at(t, x, y)] (x0 <= x <= x1 || x1 <= x <= x0) ==> open_at(t, (x, y)),
    ensures
        joined(t, (x0, y), (x1, y)),
{
    let n = if x0 <= x1 { x1 - x0 + 1 } else { x0 - x1 + 1 };
    let path = Seq::new(n as nat, |i: int| (if x0 <= x1 { x0 + i } else { x0 - i }, y));
    assert forall|i: int| 0 <= i < path.len() implies open_at(t, #[trigger] path[i]) by {
        let x = if x0 <= x1 { x0 + i } else { x0 - i };
        assert(x0 <= x <= x1 || x1 <= x <= x0);
        assert(open_at(t, (x, y)));
    }
    assert forall|i: int| 0 <= i < path.len() - 1 implies #[trigger] adjacent(path[i], path[i + 1]) by {}
    assert(is_walk(t, path));
    assert(path.last() == (x1, y));
}

/// A straight run along column `x` from `y0` to `y1`, every tile walkable.
proof fn lemma_joined_col(t: Seq<Tile>, x: int, y0: int, y1: int)
    requires
        forall|y: int| #![trigger at(t, x, y)] (y0 <= y <= y1 || y1 <= y <= y0) ==> open_at(t, (x, y)),
    ensures
        joined(t, (x, y0), (x, y1)),
{
    let n = if y0 <= y1 { y1 - y0 + 1 } else { y0 - y1 + 1 };
    let path = Seq::new(n as nat, |i: int| (x, if y0 <= y1 { y0 + i } else { y0 - i }));
    assert forall|i: int| 0 <= i < path.len() implies open_at(t, #[trigger] path[i]) by {
        let y = if y0 <= y1 { y0 + i } else { y0 - i };
        assert(y0 <= y <= y1 || y1 <= y <= y0);
        assert(open_at(t, (x, y)));
    }
    assert forall|i: int| 0 <= i < path.len() - 1 implies #[trigger] adjacent(path[i], path[i + 1]) by {}
    assert(is_walk(t, path));
    assert(path.last() == (x, y1));
}

/// Every tile of a walkable room is joined to its centre.
proof fn lemma_joined_in_room(t: Seq<Tile>, r: Room, x: int, y: int)
    requires
        drawn(r),
        r.contains(x, y),
        forall|xx: int, yy: int| #![trigger at(t, xx, yy)] in_grid(xx, yy) && r.contains(xx, yy) ==> at(t, xx, yy).spec_walkable(),
    ensures
        joined(t, (x, y), r.spec_center()),
{
    let c = r.spec_center();
    lemma_drawn_center(r);
    assert forall|xx: int| #![trigger at(t, xx, y)] (x <= xx <= c.0 || c.0 <= xx <= x) implies open_at(t, (xx, y)) by {
        assert(r.contains(xx, y));
    }
    lemma_joined_row(t, y, x, c.0);
    assert forall|yy: int| #![trigger at(t, c.0, yy)] (y <= yy <= c.1 || c.1 <= yy <= y) implies open_at(t, (c.0, yy)) by {
        assert(r.contains(c.0, yy));
    }
    lemma_joined_col(t, c.0, y, c.1);
    lemma_joined_trans(t, (x, y), (c.0, y), c);
}

/// Along a walkable corridor from `a` to `b`: `a` is joined to `b` and to
/// every cell of the corridor.
proof fn lemma_joined_corridor(t: Seq<Tile>, a: (int, int), b: (int, int), q: (int, int))
    requires
        interior(a.0, a.1),
        interior(b.0, b.1),
        open_at(t, a),
        forall|x: int, y: int| #![trigger at(t, x, y)] corridor_cell(a, b, x, y) ==> at(t, x, y).spec_walkable(),
        corridor_cell(a, b, q.0, q.1) || q == b,
    ensures
        joined(t, a, q),
{
    // along x on row a.1
    assert forall|x: int| #![trigger at(t, x, a.1)] (a.0 <= x <= b.0 || b.0 <= x <= a.0) implies open_at(t, (x, a.1)) by {
        if x != a.0 {
            assert(corridor_cell(a, b, x, a.1));
            lemma_corridor_interior(a, b, x, a.1);
        }
    }
    let k = (b.0, a.1);
    lemma_joined_row(t, a.1, a.0, b.0);
    // along y on column b.0
    assert forall|y: int| #![trigger at(t, b.0, y)] (a.1 <= y <= b.1 || b.1 <= y <= a.1) implies open_at(t, (b.0, y)) by {
        if y != a.1 {
            assert(corridor_cell(a, b, b.0, y));
            lemma_corridor_interior(a, b, b.0, y);
        }
    }
    if q == b {
        lemma_joined_col(t, b.0, a.1, b.1);
        lemma_joined_trans(t, a, k, b);
    } else if stepped(a.0, b.0, q.0) && (q.1 == a.1 || q.1 == lane_y(a.1)) {
        lemma_joined_row(t, a.1, a.0, q.0);
        lemma_corridor_interior(a, b, q.0, q.1);
        assert(open_at(t, q));
        lemma_joined_step(t, (q.0, a.1), q);
        lemma_joined_trans(t, a, (q.0, a.1), q);
    } else {
        assert(stepped(a.1, b.1, q.1) && (q.0 == b.0 || q.0 == lane_x(b.0)));
        lemma_joined_col(t, b.0, a.1, q.1);
        lemma_joined_trans(t, a, k, (b.0, q.1));
        lemma_corridor_interior(a, b, q.0, q.1);
        assert(open_at(t, q));
        lemma_joined_step(t, (b.0, q.1), q);
        lemma_joined_trans(t, a, (b.0, q.1), q);
    }
}

/// The centre of every room of a generated level is joined to the centre
/// of the safe room.
proof fn lemma_centers_joined(m: DungeonMap, depth: int, gc: int, i: int)
    requires
        generated(m, depth, gc),
        0 <= i < m.rooms@.len(),
    ensures
        joined(m.tiles@, m.rooms@[i].spec_center(), m.rooms@[0].spec_center()),
    decreases i,
{
    let t = m.tiles@;
    let rs = m.rooms@;
    assert(drawn(rs[i]));
    lemma_drawn_center(rs[i]);
    let ci = rs[i].spec_center();
    assert(at(t, ci.0, ci.1).spec_walkable());
    if i == 0 {
        lemma_joined_refl(t, ci);
    } else {
        assert(drawn(rs[i - 1]));
        lemma_drawn_center(rs[i - 1]);
        let cp = rs[i - 1].spec_center();
        assert(at(t, cp.0, cp.1).spec_walkable());
        assert(linked_walkable(t, rs, i));
        lemma_joined_corridor(t, cp, ci, ci);
        lemma_joined_sym(t, cp, ci);
        lemma_centers_joined(m, depth, gc, i - 1);
        lemma_joined_trans(t, ci, cp, rs[0].spec_center());
    }
}

/// A generated level is connected: every walkable tile (the stairs among
/// them) can be walked to from the centre of the safe room, where the
/// campfire stands, one tile step at a time.
pub proof fn lemma_level_connected(m: DungeonMap, depth: int, gc: int, x: int, y: int)
    requires
        generated(m, depth, gc),
        open_at(m.tiles@, (x, y)),
    ensures
        joined(m.tiles@, m.rooms@[0].spec_center(), (x, y)),
{
    let t = m.tiles@;
    let rs = m.rooms@;
    let c0 = rs[0].spec_center();
    if in_some_room(rs, rs.len() as int, x, y) {
        let j = choose|j: int| 0 <= j < rs.len() && #[trigger] rs[j].contains(x, y);
        assert(drawn(rs[j]));
        lemma_joined_in_room(t, rs[j], x, y);
        lemma_centers_joined(m, depth, gc, j);
        lemma_joined_trans(t, (x, y), rs[j].spec_center(), c0);
    } else {
        assert(on_some_corridor(rs, rs.len() as int, x, y));
        let i = choose|i: int| 1 <= i < rs.len() && #[trigger] corridor_cell(rs[i - 1].spec_center(), rs[i].spec_center(), x, y);
        assert(drawn(rs[i - 1]) && drawn(rs[i]));
        lemma_drawn_center(rs[i - 1]);
        lemma_drawn_center(rs[i]);
        let cp = rs[i - 1].spec_center();
        assert(at(t, cp.0, cp.1).spec_walkable());
        assert(linked_walkable(t, rs, i));
        lemma_joined_corridor(t, cp, rs[i].spec_center(), (x, y));
        lemma_joined_sym(t, cp, (x, y));
        lemma_centers_joined(m, depth, gc, i - 1);
        lemma_joined_trans(t, (x, y), cp, c0);
    }
    lemma_joined_sym(t, (x, y), c0);
}

/// Mobs never spawn in the safe room: no mob spawn of a generated level
/// lies on safe floor or on the campfire.
pub proof fn lemma_no_mob_in_safe_room(m: DungeonMap, depth: int, gc: int, i: int)
    requires
        generated(m, depth, gc),
        0 <= i < m.mob_spots@.len(),
    ensures
        !m.spec_tile(m.mob_spots@[i].0 as int, m.mob_spots@[i].1 as int).spec_safe(),
{
    let rs = m.rooms@;
    let t = m.tiles@;
    let f = far_of(rs);
    let s = m.mob_spots@[i];
    assert(mob_spot_ok(t, rs, f, depth, s));
    assert(rs.len() > 1);
    assert(m.spec_tile(s.0 as int, s.1 as int) == at(t, s.0 as int, s.1 as int));
    if s.2 == 5 && !(1 <= s.2 <= 3 && at(t, s.0 as int, s.1 as int) == Tile::Floor && tier_possible(depth, s.2 as int)) {
        let r = rs[f];
        let r0 = rs[0];
        assert(drawn(r));
        assert(drawn(r0));
        assert(1 <= f < rs.len());
        assert(!r.spec_intersects(r0));
        assert(r.contains(s.0 as int, s.1 as int));
        assert(!r0.contains(s.0 as int, s.1 as int));
        assert(r0.contains(r0.spec_center().0, r0.spec_center().1));
    }
}

// ---------- custom levels (level creator output / hand-editable) ----------

/// A level as text art, one string per row.
///
/// Legend: `#` wall, `.` floor, `s` safe floor, `c` campfire, `>` stairs,
/// `C` chest, `g` graffiti wall, `1`..`5` mob spawn by tier, `n` NPC spawn,
/// `@` player spawn; anything else is wall.
pub struct CustomLevel {
    pub name: String,
    pub rows: Vec<String>,
}

/// The characters of each row.
pub open spec fn grid_of(rows: Seq<String>) -> Seq<Seq<char>> {
    rows.map_values(|r: String| r@)
}

/// Length of the longest of the first `n` rows (0 when there are none).
pub open spec fn widest(g: Seq<Seq<char>>, n: int) -> int
    decreases n,
{
    if n <= 0 {
        0
    } else {
        let m = widest(g, n - 1);
        if g[n - 1].len() > m { g[n - 1].len() as int } else { m }
    }
}

/// The tile a legend character stands for.
pub open spec fn legend_tile(c: char) -> Tile {
    if c == '.' || c == 'C' || c == '@' || ('1' <= c && c <= '5') {
        Tile::Floor
    } else if c == 's' || c == 'n' {
        Tile::Safe
    } else if c == 'c' {
        Tile::Campfire
    } else if c == '>' {
        Tile::Stairs
    } else {
        Tile::Wall
    }
}

/// Positions `(x, y)` of the characters of one row, among its first `k`, that satisfy `p`.
pub open spec fn row_cells(row: Seq<char>, y: int, p: spec_fn(char) -> bool, k: int) -> Seq<(int, int)>
    decreases k,
{
    if k <= 0 {
        Seq::empty()
    } else {
        row_cells(row, y, p, k - 1) + (if p(row[k - 1]) { seq![(k - 1, y)] } else { Seq::empty() })
    }
}

/// Positions of the characters of the first `n` rows that satisfy `p`, in row-major order.
pub open spec fn grid_cells(g: Seq<Seq<char>>, p: spec_fn(char) -> bool, n: int) -> Seq<(int, int)>
    decreases n,
{
    if n <= 0 {
        Seq::empty()
    } else {
        grid_cells(g, p, n - 1) + row_cells(g[n - 1], n - 1, p, g[n - 1].len() as int)
    }
}

pub open spec fn is_char(c: char) -> spec_fn(char) -> bool {
    |d: char| d == c
}

pub open spec fn is_tier_digit() -> spec_fn(char) -> bool {
    |d: char| '1' <= d && d <= '5'
}

/// Tile `(x, y)` of a row-major grid of width `w`.
pub open spec fn cell(t: Seq<Tile>, w: int, x: int, y: int) -> Tile {
    t[y * w + x]
}

/// The largest width or height a custom level may have: nine quadrillion
/// tiles, far beyond what memory holds (spawn positions, in thousandths of
/// a tile, then fit in an `i64`).
pub const MAX_SIDE: u64 = 9000000000000000;

/// The spawn a custom level yields: the center of its last `@`, else tile (2, 2).
pub open spec fn custom_spawn(ats: Seq<(int, int)>) -> (int, int) {
    spawn_after((2 * SUBTILE as int, 2 * SUBTILE as int), ats)
}

/// Positions as integer pairs.
pub open spec fn pairs(v: Seq<(usize, usize)>) -> Seq<(int, int)> {
    v.map_values(|p: (usize, usize)| (p.0 as int, p.1 as int))
}

/// Mob spawns as integer triples.
pub open spec fn triples(v: Seq<(usize, usize, i32)>) -> Seq<(int, int, int)> {
    v.map_values(|p: (usize, usize, i32)| (p.0 as int, p.1 as int, p.2 as int))
}

/// Graffiti as integer triples `(x, y, text_idx)`.
pub open spec fn scrawls(v: Seq<Graffiti>) -> Seq<(int, int, int)> {
    v.map_values(|g: Graffiti| (g.x as int, g.y as int, g.text_idx as int))
}

/// The mob spawns a row yields: each tier digit at its position.
pub open spec fn row_mobs(row: Seq<char>, y: int) -> Seq<(int, int, int)> {
    row_cells(row, y, is_tier_digit(), row.len() as int).map_values(
        |p: (int, int)| (p.0, p.1, row[p.0] as int - '0' as int),
    )
}

/// The graffiti a row yields, each reading line `(7x + 13y) % pool`.
pub open spec fn row_scrawls(row: Seq<char>, y: int, pool: int) -> Seq<(int, int, int)> {
    row_cells(row, y, is_char('g'), row.len() as int).map_values(
        |p: (int, int)| (p.0, p.1, (7 * p.0 + 13 * p.1) % pool),
    )
}

pub open spec fn grid_mobs(g: Seq<Seq<char>>, n: int) -> Seq<(int, int, int)>
    decreases n,
{
    if n <= 0 {
        Seq::empty()
    } else {
        grid_mobs(g, n - 1) + row_mobs(g[n - 1], n - 1)
    }
}

pub open spec fn grid_scrawls(g: Seq<Seq<char>>, pool: int, n: int) -> Seq<(int, int, int)>
    decreases n,
{
    if n <= 0 {
        Seq::empty()
    } else {
        grid_scrawls(g, pool, n - 1) + row_scrawls(g[n - 1], n - 1, pool)
    }
}

/// The tiles of one row padded with wall to width `w`.
pub open spec fn row_tiles(row: Seq<char>, w: int) -> Seq<Tile> {
    Seq::new(w as nat, |x: int| if x < row.len() { legend_tile(row[x]) } else { Tile::Wall })
}

/// The tiles of the first `n` rows, row after row.
pub open spec fn grid_tiles(g: Seq<Seq<char>>, w: int, n: int) -> Seq<Tile>
    decreases n,
{
    if n <= 0 {
        Seq::empty()
    } else {
        grid_tiles(g, w, n - 1) + row_tiles(g[n - 1], w)
    }
}

/// The spawn after scanning cells whose `@` positions are `ats`, starting from `start`.
pub open spec fn spawn_after(start: (int, int), ats: Seq<(int, int)>) -> (int, int) {
    if ats.len() == 0 {
        start
    } else {
        (SUBTILE * ats.last().0 + 500, SUBTILE * ats.last().1 + 500)
    }
}

/// What `from_custom` builds from rows `g`.
pub open spec fn parsed(m: DungeonMap, g: Seq<Seq<char>>, gc: int) -> bool {
    let w = widest(g, g.len() as int);
    let pool = if gc > 1 { gc } else { 1 };
    &&& m.w == w && m.h == g.len() && m.wf()
    &&& m.tiles@ == grid_tiles(g, w, g.len() as int)
    &&& m.rooms@.len() == 0
    &&& m.has_shop
    &&& m.spawn.0 == custom_spawn(grid_cells(g, is_char('@'), g.len() as int)).0
    &&& m.spawn.1 == custom_spawn(grid_cells(g, is_char('@'), g.len() as int)).1
    &&& pairs(m.chest_spots@) == grid_cells(g, is_char('C'), g.len() as int)
    &&& pairs(m.npc_spots@) == grid_cells(g, is_char('n'), g.len() as int)
    &&& triples(m.mob_spots@) == grid_mobs(g, g.len() as int)
    &&& scrawls(m.graffiti@) == grid_scrawls(g, pool, g.len() as int)
}

proof fn lemma_widest(g: Seq<Seq<char>>, n: int)
    requires
        0 <= n <= g.len(),
    ensures
        forall|y: int| 0 <= y < n ==> (#[trigger] g[y]).len() <= widest(g, n),
        widest(g, n) >= 0,
    decreases n,
{
    if n > 0 {
        lemma_widest(g, n - 1);
    }
}

fn legend(ch: char) -> (t: Tile)
    ensures
        t == legend_tile(ch),
{
    match ch {
        '#' => Tile::Wall,
        '.' => Tile::Floor,
        's' => Tile::Safe,
        'c' => Tile::Campfire,
        '>' => Tile::Stairs,
        'C' => Tile::Floor,
        'g' => Tile::Wall,
        '1' | '2' | '3' | '4' | '5' => Tile::Floor,
        'n' => Tile::Safe,
        '@' => Tile::Floor,
        _ => Tile::Wall,
    }
}

/// The spots gathered while reading a custom level.
struct Markers {
    chests: Vec<(usize, usize)>,
    graffiti: Vec<Graffiti>,
    mobs: Vec<(usize, usize, i32)>,
    npcs: Vec<(usize, usize)>,
    spawn: (i64, i64),
}

proof fn lemma_row_cells_bound(row: Seq<char>, y: int, p: spec_fn(char) -> bool, k: int)
    requires
        0 <= k <= row.len(),
    ensures
        forall|i: int| 0 <= i < row_cells(row, y, p, k).len() ==> 0 <= (#[trigger] row_cells(row, y, p, k)[i]).0 < k
            && row_cells(row, y, p, k)[i].1 == y && p(row[row_cells(row, y, p, k)[i].0]),
    decreases k,
{
    if k > 0 {
        lemma_row_cells_bound(row, y, p, k - 1);
        let prev = row_cells(row, y, p, k - 1);
        let cur = row_cells(row, y, p, k);
        assert forall|i: int| 0 <= i < cur.len() implies 0 <= (#[trigger] cur[i]).0 < k && cur[i].1 == y
            && p(row[cur[i].0]) by {
            if i < prev.len() {
                assert(cur[i] == prev[i]);
            }
        }
    }
}

/// Reads row `y` of a custom level: appends its tiles (padded to width `w`)
/// and its markers.
fn parse_row(row: &str, y: usize, w: usize, pool: usize, tiles: &mut Vec<Tile>, mk: &mut Markers)
    requires
        row@.len() <= w,
        pool >= 1,
        y <= MAX_SIDE,
        w <= MAX_SIDE,
    ensures
        final(tiles)@ == old(tiles)@ + row_tiles(row@, w as int),
        pairs(final(mk).chests@) == pairs(old(mk).chests@) + row_cells(row@, y as int, is_char('C'), row@.len() as int),
        pairs(final(mk).npcs@) == pairs(old(mk).npcs@) + row_cells(row@, y as int, is_char('n'), row@.len() as int),
        triples(final(mk).mobs@) == triples(old(mk).mobs@) + row_mobs(row@, y as int),
        scrawls(final(mk).graffiti@) == scrawls(old(mk).graffiti@) + row_scrawls(row@, y as int, pool as int),
        final(mk).spawn.0 == spawn_after((old(mk).spawn.0 as int, old(mk).spawn.1 as int), row_cells(row@, y as int, is_char('@'), row@.len() as int)).0,
        final(mk).spawn.1 == spawn_after((old(mk).spawn.0 as int, old(mk).spawn.1 as int), row_cells(row@, y as int, is_char('@'), row@.len() as int)).1,
{
    let n = row.unicode_len();
    let ghost t0 = tiles@;
    let ghost c0 = pairs(mk.chests@);
    let ghost p0 = pairs(mk.npcs@);
    let ghost m0 = triples(mk.mobs@);
    let ghost g0 = scrawls(mk.graffiti@);
    let ghost s0 = (mk.spawn.0 as int, mk.spawn.1 as int);
    let ghost r = row@;
    let mut x: usize = 0;
    while x < n
        invariant
            n == r.len(),
            r == row@,
            n <= w,
            x <= n,
            pool >= 1,
            y <= MAX_SIDE,
            w <= MAX_SIDE,
            tiles@ == t0 + row_tiles(r, w as int).take(x as int),
            pairs(mk.chests@) == c0 + row_cells(r, y as int, is_char('C'), x as int),
            pairs(mk.npcs@) == p0 + row_cells(r, y as int, is_char('n'), x as int),
            triples(mk.mobs@) == m0 + row_cells(r, y as int, is_tier_digit(), x as int).map_values(
                |p: (int, int)| (p.0, p.1, r[p.0] as int - '0' as int)),
            scrawls(mk.graffiti@) == g0 + row_cells(r, y as int, is_char('g'), x as int).map_values(
                |p: (int, int)| (p.0, p.1, (7 * p.0 + 13 * p.1) % (pool as int))),
            mk.spawn.0 == spawn_after(s0, row_cells(r, y as int, is_char('@'), x as int)).0,
            mk.spawn.1 == spawn_after(s0, row_cells(r, y as int, is_char('@'), x as int)).1,
        decreases n - x,
    {
        let ch = row.get_char(x);
        let ghost cs = mk.chests@;
        let ghost ns = mk.npcs@;
        let ghost ms = mk.mobs@;
        let ghost gs = mk.graffiti@;
        let ghost ts = tiles@;
        proof {
            lemma_row_cells_bound(r, y as int, is_tier_digit(), x as int);
            lemma_row_cells_bound(r, y as int, is_char('g'), x as int);
        }
        match ch {
            'C' => {
                mk.chests.push((x, y));
                assert(pairs(mk.chests@) =~= pairs(cs).push((x as int, y as int)));
            },
            'g' => {
                let pick = ((x as u128) * 7 + (y as u128) * 13) % (pool as u128);
                mk.graffiti.push(Graffiti { x, y, text_idx: pick as usize });
                assert(scrawls(mk.graffiti@) =~= scrawls(gs).push((x as int, y as int, ((7 * x + 13 * y) % (pool as int)) as int)));
            },
            '1' | '2' | '3' | '4' | '5' => {
                let tier: i32 = match ch {
                    '1' => 1,
                    '2' => 2,
                    '3' => 3,
                    '4' => 4,
                    _ => 5,
                };
                mk.mobs.push((x, y, tier));
                assert(triples(mk.mobs@) =~= triples(ms).push((x as int, y as int, tier as int)));
            },
            'n' => {
                mk.npcs.push((x, y));
                assert(pairs(mk.npcs@) =~= pairs(ns).push((x as int, y as int)));
            },
            '@' => {
                mk.spawn = ((x as i64) * SUBTILE + 500, (y as i64) * SUBTILE + 500);
            },
            _ => {},
        }
        tiles.push(legend(ch));
        proof {
            assert(row_tiles(r, w as int).take(x + 1) =~= row_tiles(r, w as int).take(x as int).push(legend_tile(ch)));
            let m1 = row_cells(r, y as int, is_tier_digit(), x + 1);
            let m0x = row_cells(r, y as int, is_tier_digit(), x as int);
            assert(m1.map_values(|p: (int, int)| (p.0, p.1, r[p.0] as int - '0' as int)) =~= m0x.map_values(
                |p: (int, int)| (p.0, p.1, r[p.0] as int - '0' as int)) + (if ('1' <= ch && ch <= '5') {
                seq![(x as int, y as int, r[x as int] as int - '0' as int)]
            } else {
                Seq::empty()
            }));
            let g1 = row_cells(r, y as int, is_char('g'), x + 1);
            let g0x = row_cells(r, y as int, is_char('g'), x as int);
            assert(g1.map_values(|p: (int, int)| (p.0, p.1, (7 * p.0 + 13 * p.1) % (pool as int))) =~= g0x.map_values(
                |p: (int, int)| (p.0, p.1, (7 * p.0 + 13 * p.1) % (pool as int))) + (if ch == 'g' {
                seq![(x as int, y as int, (7 * x + 13 * y) % (pool as int))]
            } else {
                Seq::empty()
            }));
        }
        x = x + 1;
    }
    while x < w
        invariant
            n <= x <= w,
            n == r.len(),
            tiles@ == t0 + row_tiles(r, w as int).take(x as int),
        decreases w - x,
    {
        tiles.push(Tile::Wall);
        assert(row_tiles(r, w as int).take(x + 1) =~= row_tiles(r, w as int).take(x as int).push(Tile::Wall));
        x = x + 1;
    }
    assert(row_tiles(r, w as int).take(w as int) =~= row_tiles(r, w as int));
}

proof fn lemma_spawn_after_concat(start: (int, int), a: Seq<(int, int)>, b: Seq<(int, int)>)
    ensures
        spawn_after(start, a + b) == spawn_after(spawn_after(start, a), b),
{
    if b.len() > 0 {
        assert((a + b).last() == b.last());
    } else {
        assert(a + b =~= a);
    }
}

/// Reads a custom level. `None` when it has fewer than three rows or its
/// longest row is shorter than three characters; short rows are padded with
/// wall. Custom levels have no rooms and always have a shop.
pub fn from_custom(level: &CustomLevel, graffiti_count: usize) -> (res: Option<DungeonMap>)
    requires
        widest(grid_of(level.rows@), level.rows@.len() as int) <= MAX_SIDE,
        level.rows@.len() <= MAX_SIDE,
    ensures
        res is None <==> (level.rows@.len() < 3 || widest(grid_of(level.rows@), level.rows@.len() as int)
            < 3),
        res matches Some(m) ==> parsed(m, grid_of(level.rows@), graffiti_count as int),
{
    let ghost g = grid_of(level.rows@);
    let h = level.rows.len();
    let mut w: usize = 0;
    let mut k: usize = 0;
    while k < h
        invariant
            h == level.rows@.len(),
            g == grid_of(level.rows@),
            k <= h,
            w as int == widest(g, k as int),
        decreases h - k,
    {
        let n = level.rows[k].as_str().unicode_len();
        assert(g[k as int] == level.rows@[k as int]@);
        if n > w {
            w = n;
        }
        k = k + 1;
    }
    if h < 3 || w < 3 {
        return None;
    }
    proof { lemma_widest(g, h as int); }
    let pool: usize = if graffiti_count > 1 { graffiti_count } else { 1 };
    let mut tiles: Vec<Tile> = Vec::new();
    let mut mk = Markers {
        chests: Vec::new(),
        graffiti: Vec::new(),
        mobs: Vec::new(),
        npcs: Vec::new(),
        spawn: (2 * SUBTILE, 2 * SUBTILE),
    };
    assert(pairs(mk.chests@) =~= Seq::<(int, int)>::empty());
    assert(pairs(mk.npcs@) =~= Seq::<(int, int)>::empty());
    assert(triples(mk.mobs@) =~= Seq::<(int, int, int)>::empty());
    assert(scrawls(mk.graffiti@) =~= Seq::<(int, int, int)>::empty());
    let mut y: usize = 0;
    while y < h
        invariant
            h == level.rows@.len(),
            g == grid_of(level.rows@),
            w as int == widest(g, h as int),
            forall|yy: int| 0 <= yy < h ==> (#[trigger] g[yy]).len() <= w,
            w <= MAX_SIDE,
            h <= MAX_SIDE,
            pool == (if graffiti_count > 1 { graffiti_count as int } else { 1 }),
            y <= h,
            tiles@ == grid_tiles(g, w as int, y as int),
            pairs(mk.chests@) == grid_cells(g, is_char('C'), y as int),
            pairs(mk.npcs@) == grid_cells(g, is_char('n'), y as int),
            triples(mk.mobs@) == grid_mobs(g, y as int),
            scrawls(mk.graffiti@) == grid_scrawls(g, pool as int, y as int),
            mk.spawn.0 == custom_spawn(grid_cells(g, is_char('@'), y as int)).0,
            mk.spawn.1 == custom_spawn(grid_cells(g, is_char('@'), y as int)).1,
        decreases h - y,
    {
        let row = level.rows[y].as_str();
        assert(g[y as int] == row@);
        assert(row@.len() <= w);
        parse_row(row, y, w, pool, &mut tiles, &mut mk);
        proof {
            lemma_spawn_after_concat(
                (2 * SUBTILE as int, 2 * SUBTILE as int),
                grid_cells(g, is_char('@'), y as int),
                row_cells(g[y as int], y as int, is_char('@'), g[y as int].len() as int),
            );
        }
        y = y + 1;
    }
    proof {
        lemma_grid_tiles_len(g, w as int, h as int);
        assert((h as int) * (w as int) == (w as int) * (h as int)) by (nonlinear_arith);
    }
    Some(DungeonMap {
        w,
        h,
        tiles,
        rooms: Vec::new(),
        spawn: mk.spawn,
        graffiti: mk.graffiti,
        chest_spots: mk.chests,
        mob_spots: mk.mobs,
        npc_spots: mk.npcs,
        has_shop: true,
    })
}

proof fn lemma_grid_tiles_len(g: Seq<Seq<char>>, w: int, n: int)
    requires
        0 <= n,
        0 <= w,
    ensures
        grid_tiles(g, w, n).len() == n * w,
    decreases n,
{
    if n > 0 {
        lemma_grid_tiles_len(g, w, n - 1);
        assert(n * w == (n - 1) * w + w) by (nonlinear_arith);
    } else {
        assert(n * w == 0) by (nonlinear_arith)
            requires
                n == 0,
        ;
    }
}

/// The legend character of a tile.
pub open spec fn tile_char(t: Tile) -> char {
    match t {
        Tile::Wall => '#',
        Tile::Floor => '.',
        Tile::Safe => 's',
        Tile::Campfire => 'c',
        Tile::Stairs => '>',
    }
}

/// The digit of a mob tier, clamped to `1..=5`.
pub open spec fn tier_char(t: int) -> char {
    if t <= 1 {
        '1'
    } else if t == 2 {
        '2'
    } else if t == 3 {
        '3'
    } else if t == 4 {
        '4'
    } else {
        '5'
    }
}

/// The tier of the first mob spawn at `(x, y)`, if any.
pub open spec fn first_mob(s: Seq<(usize, usize, i32)>, x: int, y: int) -> Option<i32>
    decreases s.len(),
{
    if s.len() == 0 {
        None
    } else if s[0].0 == x && s[0].1 == y {
        Some(s[0].2)
    } else {
        first_mob(s.drop_first(), x, y)
    }
}

pub open spec fn has_pair(s: Seq<(usize, usize)>, x: int, y: int) -> bool {
    exists|i: int| 0 <= i < s.len() && (#[trigger] s[i]).0 == x && s[i].1 == y
}

pub open spec fn has_scrawl(s: Seq<Graffiti>, x: int, y: int) -> bool {
    exists|i: int| 0 <= i < s.len() && (#[trigger] s[i]).x == x && s[i].y == y
}

/// The tile column or row of a spawn coordinate (negative ones land on 0).
pub open spec fn spawn_tile(v: int) -> int {
    if v < 0 { 0 } else { v / SUBTILE as int }
}

/// The character `to_custom` writes for tile `(x, y)`: the tile's legend
/// character, overridden in turn by graffiti, a chest, the first mob spawn
/// there, an NPC spawn, and the player spawn.
pub open spec fn custom_char(m: DungeonMap, x: int, y: int) -> char {
    let c0 = tile_char(cell(m.tiles@, m.w as int, x, y));
    let c1 = if has_scrawl(m.graffiti@, x, y) { 'g' } else { c0 };
    let c2 = if has_pair(m.chest_spots@, x, y) { 'C' } else { c1 };
    let c3 = match first_mob(m.mob_spots@, x, y) {
        Some(t) => tier_char(t as int),
        None => c2,
    };
    let c4 = if has_pair(m.npc_spots@, x, y) { 'n' } else { c3 };
    if spawn_tile(m.spawn.0 as int) == x && spawn_tile(m.spawn.1 as int) == y {
        '@'
    } else {
        c4
    }
}

/// The rows `to_custom` writes for a map.
pub open spec fn custom_rows(m: DungeonMap) -> Seq<Seq<char>> {
    Seq::new(m.h as nat, |y: int| Seq::new(m.w as nat, |x: int| custom_char(m, x, y)))
}

fn has_pair_exec(s: &Vec<(usize, usize)>, x: usize, y: usize) -> (b: bool)
    ensures
        b == has_pair(s@, x as int, y as int),
{
    let mut i: usize = 0;
    while i < s.len()
        invariant
            i <= s@.len(),
            forall|j: int| 0 <= j < i ==> !((#[trigger] s@[j]).0 == x && s@[j].1 == y),
        decreases s@.len() - i,
    {
        if s[i].0 == x && s[i].1 == y {
            return true;
        }
        i = i + 1;
    }
    false
}

fn has_scrawl_exec(s: &Vec<Graffiti>, x: usize, y: usize) -> (b: bool)
    ensures
        b == has_scrawl(s@, x as int, y as int),
{
    let mut i: usize = 0;
    while i < s.len()
        invariant
            i <= s@.len(),
            forall|j: int| 0 <= j < i ==> !((#[trigger] s@[j]).x == x && s@[j].y == y),
        decreases s@.len() - i,
    {
        if s[i].x == x && s[i].y == y {
            return true;
        }
        i = i + 1;
    }
    false
}

fn first_mob_exec(s: &Vec<(usize, usize, i32)>, x: usize, y: usize) -> (r: Option<i32>)
    ensures
        r == first_mob(s@, x as int, y as int),
{
    let mut i: usize = 0;
    assert(s@.subrange(0, s@.len() as int) =~= s@);
    while i < s.len()
        invariant
            i <= s@.len(),
            first_mob(s@, x as int, y as int) == first_mob(s@.subrange(i as int, s@.len() as int), x as int, y as int),
        decreases s@.len() - i,
    {
        let ghost rest = s@.subrange(i as int, s@.len() as int);
        if s[i].0 == x && s[i].1 == y {
            assert(rest[0] == s@[i as int]);
            return Some(s[i].2);
        }
        assert(rest.drop_first() =~= s@.subrange(i + 1, s@.len() as int));
        i = i + 1;
    }
    assert(s@.subrange(i as int, s@.len() as int) =~= Seq::<(usize, usize, i32)>::empty());
    None
}

fn tier_digit(t: i32) -> (c: char)
    ensures
        c == tier_char(t as int),
{
    if t <= 1 {
        '1'
    } else if t == 2 {
        '2'
    } else if t == 3 {
        '3'
    } else if t == 4 {
        '4'
    } else {
        '5'
    }
}

/// Writes a map as text art (see `custom_char` for what each character is).
pub fn to_custom(map: &DungeonMap, name: &str) -> (level: CustomLevel)
    requires
        map.wf(),
    ensures
        level.name@ == name@,
        grid_of(level.rows@) == custom_rows(*map),
{
    let mut rows: Vec<String> = Vec::new();
    let sx: i64 = if map.spawn.0 < 0 { 0 } else { map.spawn.0 / SUBTILE };
    let sy: i64 = if map.spawn.1 < 0 { 0 } else { map.spawn.1 / SUBTILE };
    let mut y: usize = 0;
    while y < map.h
        invariant
            map.wf(),
            y <= map.h,
            sx == spawn_tile(map.spawn.0 as int),
            sy == spawn_tile(map.spawn.1 as int),
            sx >= 0,
            sy >= 0,
            rows@.len() == y,
            forall|yy: int| 0 <= yy < y ==> (#[trigger] rows@[yy])@ == custom_rows(*map)[yy],
        decreases map.h - y,
    {
        let mut row = String::new();
        let mut x: usize = 0;
        while x < map.w
            invariant
                map.wf(),
                y < map.h,
                x <= map.w,
                sx == spawn_tile(map.spawn.0 as int),
                sy == spawn_tile(map.spawn.1 as int),
                sx >= 0,
                sy >= 0,
                row@.len() == x,
                forall|xx: int| 0 <= xx < x ==> row@[xx] == #[trigger] custom_char(*map, xx, y as int),
            decreases map.w - x,
        {
            proof { lemma_row_major(x as int, y as int, map.w as int, map.h as int); }
            let n = map.tiles.len();
            let mut ch = match map.tiles[y * map.w + x] {
                Tile::Wall => '#',
                Tile::Floor => '.',
                Tile::Safe => 's',
                Tile::Campfire => 'c',
                Tile::Stairs => '>',
            };
            if has_scrawl_exec(&map.graffiti, x, y) {
                ch = 'g';
            }
            if has_pair_exec(&map.chest_spots, x, y) {
                ch = 'C';
            }
            if let Some(t) = first_mob_exec(&map.mob_spots, x, y) {
                ch = tier_digit(t);
            }
            if has_pair_exec(&map.npc_spots, x, y) {
                ch = 'n';
            }
            if sx as u64 == x as u64 && sy as u64 == y as u64 {
                ch = '@';
            }
            let ghost before = row@;
            push_char(&mut row, ch);
            assert(ch == custom_char(*map, x as int, y as int));
            x = x + 1;
        }
        assert(row@ =~= custom_rows(*map)[y as int]);
        rows.push(row);
        y = y + 1;
    }
    let level = CustomLevel { name: String::from_str(name), rows };
    assert(grid_of(level.rows@) =~= custom_rows(*map));
    level
}

// ---------- laws of the text-art format ----------

proof fn lemma_widest_uniform(g: Seq<Seq<char>>, n: int, w: int)
    requires
        1 <= n <= g.len(),
        w >= 0,
        forall|y: int| 0 <= y < n ==> (#[trigger] g[y]).len() == w,
    ensures
        widest(g, n) == w,
    decreases n,
{
    if n > 1 {
        lemma_widest_uniform(g, n - 1, w);
    } else {
        assert(widest(g, 0) == 0);
        assert(g[0].len() == w);
    }
}

/// Tile `(x, y)` of the grid `from_custom` builds is the legend tile of the
/// character there (wall past the end of a short row).
pub proof fn lemma_grid_tiles_cell(g: Seq<Seq<char>>, w: int, n: int, x: int, y: int)
    requires
        0 <= y < n <= g.len(),
        0 <= x < w,
    ensures
        cell(grid_tiles(g, w, n), w, x, y) == row_tiles(g[y], w)[x],
    decreases n,
{
    lemma_grid_tiles_len(g, w, n - 1);
    lemma_grid_tiles_len(g, w, y);
    if y < n - 1 {
        lemma_grid_tiles_cell(g, w, n - 1, x, y);
        lemma_earlier_row_index(y, x, n - 1, w);
    } else {
        assert(y * w + x - (n - 1) * w == x);
    }
}

proof fn lemma_earlier_row_index(yy: int, xx: int, y: int, w: int)
    requires
        0 <= yy < y,
        0 <= xx < w,
    ensures
        yy * w + xx < y * w,
        0 <= yy * w + xx,
{
    assert(yy * w + xx < y * w) by (nonlinear_arith)
        requires
            0 <= yy < y,
            0 <= xx < w,
    ;
    assert(0 <= yy * w) by (nonlinear_arith)
        requires
            0 <= yy,
            0 <= w,
    ;
}

proof fn lemma_tile_char_roundtrip(t: Tile)
    ensures
        legend_tile(tile_char(t)) == t,
{
}

/// A tile `to_custom` writes no marker over: no graffiti, chest, mob, NPC or spawn.
pub open spec fn unmarked(m: DungeonMap, x: int, y: int) -> bool {
    &&& !has_scrawl(m.graffiti@, x, y)
    &&& !has_pair(m.chest_spots@, x, y)
    &&& first_mob(m.mob_spots@, x, y) is None
    &&& !has_pair(m.npc_spots@, x, y)
    &&& !(spawn_tile(m.spawn.0 as int) == x && spawn_tile(m.spawn.1 as int) == y)
}

/// Saving a level as text and reading it back keeps its size and every tile
/// that carries no marker.
pub proof fn lemma_layout_survives_text(m: DungeonMap, g: Seq<Seq<char>>, m2: DungeonMap, gc: int)
    requires
        m.wf(),
        m.w >= 3,
        m.h >= 3,
        g == custom_rows(m),
        parsed(m2, g, gc),
    ensures
        m2.w == m.w,
        m2.h == m.h,
        forall|x: int, y: int|
            0 <= x < m.w && 0 <= y < m.h && unmarked(m, x, y) ==> #[trigger] cell(m2.tiles@, m.w as int, x, y)
                == cell(m.tiles@, m.w as int, x, y),
{
    lemma_widest_uniform(g, m.h as int, m.w as int);
    assert forall|x: int, y: int|
        0 <= x < m.w && 0 <= y < m.h && unmarked(m, x, y) implies #[trigger] cell(m2.tiles@, m.w as int, x, y)
        == cell(m.tiles@, m.w as int, x, y) by {
        lemma_grid_tiles_cell(g, m.w as int, m.h as int, x, y);
        lemma_tile_char_roundtrip(cell(m.tiles@, m.w as int, x, y));
    }
}

/// The characters a custom level may hold.
pub open spec fn in_legend(c: char) -> bool {
    c == '#' || c == '.' || c == 's' || c == 'c' || c == '>' || c == 'C' || c == 'g' || ('1' <= c && c <= '5')
        || c == 'n' || c == '@'
}

proof fn lemma_row_cells_mem(row: Seq<char>, y: int, p: spec_fn(char) -> bool, k: int, x: int, yy: int)
    requires
        0 <= k <= row.len(),
    ensures
        row_cells(row, y, p, k).contains((x, yy)) <==> (yy == y && 0 <= x < k && p(row[x])),
    decreases k,
{
    if k > 0 {
        lemma_row_cells_mem(row, y, p, k - 1, x, yy);
        let prev = row_cells(row, y, p, k - 1);
        let tail: Seq<(int, int)> = if p(row[k - 1]) { seq![(k - 1, y)] } else { Seq::empty() };
        assert(row_cells(row, y, p, k) == prev + tail);
        if row_cells(row, y, p, k).contains((x, yy)) {
            let i = choose|i: int| 0 <= i < row_cells(row, y, p, k).len() && row_cells(row, y, p, k)[i] == (x, yy);
            if i < prev.len() {
                assert(prev[i] == (x, yy));
            }
        }
        if yy == y && 0 <= x < k && p(row[x]) {
            if x < k - 1 {
                let i = choose|i: int| 0 <= i < prev.len() && prev[i] == (x, yy);
                assert((prev + tail)[i] == (x, yy));
            } else {
                assert((prev + tail)[prev.len() as int] == (x, yy));
            }
        }
    }
}

/// A position is among the cells of the first `n` rows satisfying `p` exactly
/// when its character satisfies `p`.
pub proof fn lemma_grid_cells_mem(g: Seq<Seq<char>>, p: spec_fn(char) -> bool, n: int, x: int, y: int)
    requires
        0 <= n <= g.len(),
    ensures
        grid_cells(g, p, n).contains((x, y)) <==> (0 <= y < n && 0 <= x < g[y].len() && p(g[y][x])),
    decreases n,
{
    if n > 0 {
        lemma_grid_cells_mem(g, p, n - 1, x, y);
        lemma_row_cells_mem(g[n - 1], n - 1, p, g[n - 1].len() as int, x, y);
        let a = grid_cells(g, p, n - 1);
        let b = row_cells(g[n - 1], n - 1, p, g[n - 1].len() as int);
        assert(grid_cells(g, p, n) == a + b);
        if (a + b).contains((x, y)) {
            let i = choose|i: int| 0 <= i < (a + b).len() && (a + b)[i] == (x, y);
            if i < a.len() {
                assert(a[i] == (x, y));
            } else {
                assert(b[i - a.len()] == (x, y));
            }
        }
        if a.contains((x, y)) {
            let i = choose|i: int| 0 <= i < a.len() && a[i] == (x, y);
            assert((a + b)[i] == (x, y));
        }
        if b.contains((x, y)) {
            let i = choose|i: int| 0 <= i < b.len() && b[i] == (x, y);
            assert((a + b)[a.len() + i] == (x, y));
        }
    }
}

/// The mob spawns of the first `n` rows are their tier-digit cells, each
/// with the digit's value.
proof fn lemma_grid_mobs_cells(g: Seq<Seq<char>>, n: int)
    requires
        0 <= n <= g.len(),
    ensures
        grid_mobs(g, n) == grid_cells(g, is_tier_digit(), n).map_values(
            |p: (int, int)| (p.0, p.1, g[p.1][p.0] as int - '0' as int),
        ),
    decreases n,
{
    if n > 0 {
        lemma_grid_mobs_cells(g, n - 1);
        let f = |p: (int, int)| (p.0, p.1, g[p.1][p.0] as int - '0' as int);
        let a = grid_cells(g, is_tier_digit(), n - 1);
        let row = g[n - 1];
        let b = row_cells(row, n - 1, is_tier_digit(), row.len() as int);
        lemma_row_cells_bound(row, n - 1, is_tier_digit(), row.len() as int);
        assert(row_mobs(row, n - 1) =~= b.map_values(f));
        assert((a + b).map_values(f) =~= a.map_values(f) + b.map_values(f));
    }
}

/// The graffiti of the first `n` rows are their `g` cells.
proof fn lemma_grid_scrawls_cells(g: Seq<Seq<char>>, pool: int, n: int)
    requires
        0 <= n <= g.len(),
    ensures
        grid_scrawls(g, pool, n) == grid_cells(g, is_char('g'), n).map_values(
            |p: (int, int)| (p.0, p.1, (7 * p.0 + 13 * p.1) % pool),
        ),
    decreases n,
{
    if n > 0 {
        lemma_grid_scrawls_cells(g, pool, n - 1);
        let f = |p: (int, int)| (p.0, p.1, (7 * p.0 + 13 * p.1) % pool);
        let a = grid_cells(g, is_char('g'), n - 1);
        let b = row_cells(g[n - 1], n - 1, is_char('g'), g[n - 1].len() as int);
        assert((a + b).map_values(f) =~= a.map_values(f) + b.map_values(f));
    }
}

proof fn lemma_first_mob(s: Seq<(usize, usize, i32)>, x: int, y: int)
    ensures
        first_mob(s, x, y) is None <==> !exists|i: int| 0 <= i < s.len() && (#[trigger] s[i]).0 == x && s[i].1 == y,
        first_mob(s, x, y) matches Some(t) ==> exists|i: int|
            0 <= i < s.len() && (#[trigger] s[i]).0 == x && s[i].1 == y && s[i].2 == t,
    decreases s.len(),
{
    if s.len() > 0 {
        lemma_first_mob(s.drop_first(), x, y);
        if !(s[0].0 == x && s[0].1 == y) {
            if exists|i: int| 0 <= i < s.len() && (#[trigger] s[i]).0 == x && s[i].1 == y {
                let i = choose|i: int| 0 <= i < s.len() && (#[trigger] s[i]).0 == x && s[i].1 == y;
                assert(s.drop_first()[i - 1] == s[i]);
            }
            if first_mob(s, x, y) is Some {
                let t = first_mob(s, x, y)->0;
                let i = choose|i: int|
                    0 <= i < s.len() - 1 && (#[trigger] s.drop_first()[i]).0 == x && s.drop_first()[i].1 == y
                        && s.drop_first()[i].2 == t;
                assert(s[i + 1] == s.drop_first()[i]);
            }
        }
    }
}

/// Reading a well-formed text level into a map and writing it back gives the
/// same text, when every row has the same width, every character is in the
/// legend and exactly one `@` marks the spawn.
#[verifier::rlimit(40)]
pub proof fn lemma_text_survives_map(g: Seq<Seq<char>>, m: DungeonMap, gc: int)
    requires
        g.len() >= 3,
        g[0].len() >= 3,
        forall|y: int| 0 <= y < g.len() ==> (#[trigger] g[y]).len() == g[0].len(),
        forall|y: int, x: int| 0 <= y < g.len() && 0 <= x < g[y].len() ==> in_legend(#[trigger] g[y][x]),
        grid_cells(g, is_char('@'), g.len() as int).len() == 1,
        parsed(m, g, gc),
    ensures
        custom_rows(m) == g,
{
    let h = g.len() as int;
    let w = g[0].len() as int;
    let pool = if gc > 1 { gc } else { 1 };
    lemma_widest_uniform(g, h, w);
    lemma_grid_mobs_cells(g, h);
    lemma_grid_scrawls_cells(g, pool, h);
    let ats = grid_cells(g, is_char('@'), h);
    let at0 = ats[0];
    lemma_grid_cells_mem(g, is_char('@'), h, at0.0, at0.1);
    assert(ats.contains(at0));
    assert(ats.last() == at0);
    assert(at0.0 >= 0 && at0.1 >= 0);
    assert(spawn_tile(m.spawn.0 as int) == at0.0);
    assert(spawn_tile(m.spawn.1 as int) == at0.1);
    assert forall|y: int| 0 <= y < h implies #[trigger] custom_rows(m)[y] =~= g[y] by {
        assert forall|x: int| 0 <= x < w implies custom_rows(m)[y][x] == g[y][x] by {
            let c = g[y][x];
            assert(in_legend(c));
            lemma_grid_tiles_cell(g, w, h, x, y);
            // spawn
            lemma_grid_cells_mem(g, is_char('@'), h, x, y);
            if c == '@' {
                assert(ats.contains((x, y)));
                let i = choose|i: int| 0 <= i < ats.len() && ats[i] == (x, y);
                assert(i == 0);
            }
            // npcs
            lemma_grid_cells_mem(g, is_char('n'), h, x, y);
            let npcs = grid_cells(g, is_char('n'), h);
            if has_pair(m.npc_spots@, x, y) {
                let i = choose|i: int| 0 <= i < m.npc_spots@.len() && (#[trigger] m.npc_spots@[i]).0 == x && m.npc_spots@[i].1 == y;
                assert(pairs(m.npc_spots@)[i] == (x, y));
                assert(npcs.contains((x, y)));
            }
            if c == 'n' {
                assert(npcs.contains((x, y)));
                let i = choose|i: int| 0 <= i < npcs.len() && npcs[i] == (x, y);
                assert(pairs(m.npc_spots@)[i] == (x, y));
                assert(m.npc_spots@[i].0 == x && m.npc_spots@[i].1 == y);
            }
            // chests
            lemma_grid_cells_mem(g, is_char('C'), h, x, y);
            let chests = grid_cells(g, is_char('C'), h);
            if has_pair(m.chest_spots@, x, y) {
                let i = choose|i: int| 0 <= i < m.chest_spots@.len() && (#[trigger] m.chest_spots@[i]).0 == x && m.chest_spots@[i].1 == y;
                assert(pairs(m.chest_spots@)[i] == (x, y));
                assert(chests.contains((x, y)));
            }
            if c == 'C' {
                assert(chests.contains((x, y)));
                let i = choose|i: int| 0 <= i < chests.len() && chests[i] == (x, y);
                assert(pairs(m.chest_spots@)[i] == (x, y));
                assert(m.chest_spots@[i].0 == x && m.chest_spots@[i].1 == y);
            }
            // graffiti
            lemma_grid_cells_mem(g, is_char('g'), h, x, y);
            let grafs = grid_cells(g, is_char('g'), h);
            if has_scrawl(m.graffiti@, x, y) {
                let i = choose|i: int| 0 <= i < m.graffiti@.len() && (#[trigger] m.graffiti@[i]).x == x && m.graffiti@[i].y == y;
                assert(scrawls(m.graffiti@)[i].0 == x && scrawls(m.graffiti@)[i].1 == y);
                assert(scrawls(m.graffiti@).len() == grafs.len());
                assert(grid_scrawls(g, pool, h)[i] == (grafs[i].0, grafs[i].1, (7 * grafs[i].0 + 13 * grafs[i].1) % pool));
                assert(grafs[i] == (x, y));
                assert(grafs.contains((x, y)));
            }
            if c == 'g' {
                assert(grafs.contains((x, y)));
                let i = choose|i: int| 0 <= i < grafs.len() && grafs[i] == (x, y);
                assert(scrawls(m.graffiti@).len() == grafs.len());
                assert(grid_scrawls(g, pool, h)[i] == (grafs[i].0, grafs[i].1, (7 * grafs[i].0 + 13 * grafs[i].1) % pool));
                assert(scrawls(m.graffiti@)[i].0 == x);
                assert(m.graffiti@[i].x == x && m.graffiti@[i].y == y);
            }
            // mobs
            lemma_grid_cells_mem(g, is_tier_digit(), h, x, y);
            lemma_first_mob(m.mob_spots@, x, y);
            let digits = grid_cells(g, is_tier_digit(), h);
            if first_mob(m.mob_spots@, x, y) is Some {
                let t = first_mob(m.mob_spots@, x, y)->0;
                let i = choose|i: int| 0 <= i < m.mob_spots@.len() && (#[trigger] m.mob_spots@[i]).0 == x
                    && m.mob_spots@[i].1 == y && m.mob_spots@[i].2 == t;
                assert(triples(m.mob_spots@)[i] == (x, y, t as int));
                assert(triples(m.mob_spots@).len() == digits.len());
                assert(digits[i].0 == x && digits[i].1 == y);
                assert(digits[i] == (x, y));
                assert(digits.contains((x, y)));
                assert(t as int == c as int - '0' as int);
            }
            if '1' <= c && c <= '5' {
                assert(digits.contains((x, y)));
                let i = choose|i: int| 0 <= i < digits.len() && digits[i] == (x, y);
                assert(triples(m.mob_spots@).len() == digits.len());
                assert(grid_mobs(g, h)[i] == (digits[i].0, digits[i].1, g[digits[i].1][digits[i].0] as int - '0' as int));
                assert(triples(m.mob_spots@)[i].0 == x);
                assert(m.mob_spots@[i].0 == x && m.mob_spots@[i].1 == y);
            }
        }
    }
    assert(custom_rows(m) =~= g);
}

} // verus!




