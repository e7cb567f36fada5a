//! The level creator: a canvas map, the brush in hand and a status line.
//! Mouse and keyboard handling, drawing and saving to disk belong to the
//! application, which calls these edits.

use vstd::prelude::*;
use crate::dungeon::{DungeonMap, Tile, Room, Graffiti, MAP_W, MAP_H, SUBTILE, at, in_grid, fill_room, generate, generated, lemma_row_major};

verus! {

/// The brushes, in the order the number keys and `[`/`]` walk them.
pub const BRUSHES: [&'static str; 12] = [
    "Floor",
    "Wall",
    "Safe floor",
    "Campfire",
    "Stairs down",
    "Chest",
    "Graffiti",
    "Mob T1",
    "Mob T2",
    "Mob T3",
    "Boss (T4)",
    "NPC",
];

/// The level being built, the brush in hand and the status line.
pub struct Editor {
    pub map: DungeonMap,
    pub brush: usize,
    pub status: String,
}

/// The fresh canvas: all wall but a safe room at x 2..10, y 2..8 with a
/// campfire at (5, 4).
pub open spec fn blank_tile(x: int, y: int) -> Tile {
    if x == 5 && y == 4 {
        Tile::Campfire
    } else if 2 <= x < 10 && 2 <= y < 8 {
        Tile::Safe
    } else {
        Tile::Wall
    }
}

/// A fresh canvas: the blank tiles, nothing placed, the spawn in the middle
/// of tile (3, 3), a shop.
pub open spec fn is_blank(m: DungeonMap) -> bool {
    &&& m.w == MAP_W && m.h == MAP_H && m.wf()
    &&& forall|x: int, y: int| #![trigger m.spec_tile(x, y)] in_grid(x, y) ==> m.spec_tile(x, y) == blank_tile(x, y)
    &&& m.rooms@.len() == 0
    &&& m.graffiti@.len() == 0 && m.chest_spots@.len() == 0 && m.mob_spots@.len() == 0 && m.npc_spots@.len() == 0
    &&& m.spawn.0 == 3 * SUBTILE + 500 && m.spawn.1 == 3 * SUBTILE + 500
    &&& m.has_shop
}

/// A fresh canvas (see `is_blank`).
pub fn blank_map() -> (m: DungeonMap)
    ensures
        is_blank(m),
{
    let mut tiles = vec![Tile::Wall; MAP_W * MAP_H];
    fill_room(&mut tiles, &Room { x: 2, y: 2, w: 8, h: 6 }, Tile::Safe);
    let ghost before = tiles@;
    tiles.set(4 * MAP_W + 5, Tile::Campfire);
    let m = DungeonMap {
        w: MAP_W,
        h: MAP_H,
        tiles,
        rooms: Vec::new(),
        spawn: (3 * SUBTILE + 500, 3 * SUBTILE + 500),
        graffiti: Vec::new(),
        chest_spots: Vec::new(),
        mob_spots: Vec::new(),
        npc_spots: Vec::new(),
        has_shop: true,
    };
    assert forall|x: int, y: int| #![trigger m.spec_tile(x, y)] in_grid(x, y) implies m.spec_tile(x, y) == blank_tile(
        x,
        y,
    ) by {
        assert(m.spec_tile(x, y) == at(m.tiles@, x, y));
        if !(x == 5 && y == 4) {
            crate::dungeon::lemma_row_major(x, y, MAP_W as int, MAP_H as int);
            assert(y * MAP_W + x != 4 * MAP_W + 5) by (nonlinear_arith)
                requires
                    0 <= x < MAP_W,
                    0 <= y < MAP_H,
                    !(x == 5 && y == 4),
            ;
            assert(at(m.tiles@, x, y) == at(before, x, y));
        }
    }
    m
}

pub open spec fn graffiti_off(gs: Seq<Graffiti>, x: usize, y: usize) -> Seq<Graffiti> {
    gs.filter(|g: Graffiti| !(g.x == x && g.y == y))
}

pub open spec fn pair_elsewhere(x: usize, y: usize) -> spec_fn((usize, usize)) -> bool {
    |p: (usize, usize)| !(p.0 == x && p.1 == y)
}

pub open spec fn triple_elsewhere(x: usize, y: usize) -> spec_fn((usize, usize, i32)) -> bool {
    |p: (usize, usize, i32)| !(p.0 == x && p.1 == y)
}

pub open spec fn pairs_off(ps: Seq<(usize, usize)>, x: usize, y: usize) -> Seq<(usize, usize)> {
    ps.filter(pair_elsewhere(x, y))
}

pub open spec fn triples_off(ps: Seq<(usize, usize, i32)>, x: usize, y: usize) -> Seq<(usize, usize, i32)> {
    ps.filter(triple_elsewhere(x, y))
}

/// Markers on tile (x, y) are gone; everything else stays as it was.
pub open spec fn markers_cleared(old: DungeonMap, new: DungeonMap, x: usize, y: usize) -> bool {
    &&& new.graffiti@ == graffiti_off(old.graffiti@, x, y)
    &&& new.chest_spots@ == pairs_off(old.chest_spots@, x, y)
    &&& new.mob_spots@ == triples_off(old.mob_spots@, x, y)
    &&& new.npc_spots@ == pairs_off(old.npc_spots@, x, y)
}

fn keep_graffiti(v: &Vec<Graffiti>, x: usize, y: usize) -> (out: Vec<Graffiti>)
    ensures
        out@ == graffiti_off(v@, x, y),
{
    let ghost pred = |g: Graffiti| !(g.x == x && g.y == y);
    let mut out: Vec<Graffiti> = Vec::new();
    let mut i: usize = 0;
    while i < v.len()
        invariant
            i <= v@.len(),
            pred == (|g: Graffiti| !(g.x == x && g.y == y)),
            out@ == v@.take(i as int).filter(pred),
        decreases v@.len() - i,
    {
        let g = v[i];
        proof {
            reveal(Seq::filter);
            assert(v@.take(i + 1).drop_last() =~= v@.take(i as int));
            assert(v@.take(i + 1).last() == g);
        }
        if !(g.x == x && g.y == y) {
            out.push(g);
        }
        i = i + 1;
    }
    assert(v@.take(i as int) =~= v@);
    out
}

fn keep_pairs(v: &Vec<(usize, usize)>, x: usize, y: usize) -> (out: Vec<(usize, usize)>)
    ensures
        out@ == pairs_off(v@, x, y),
{
    let ghost pred = pair_elsewhere(x, y);
    let mut out: Vec<(usize, usize)> = Vec::new();
    let mut i: usize = 0;
    while i < v.len()
        invariant
            i <= v@.len(),
            pred == pair_elsewhere(x, y),
            out@ == v@.take(i as int).filter(pred),
        decreases v@.len() - i,
    {
        let p = v[i];
        proof {
            reveal(Seq::filter);
            assert(v@.take(i + 1).drop_last() =~= v@.take(i as int));
            assert(v@.take(i + 1).last() == p);
        }
        if !(p.0 == x && p.1 == y) {
            out.push(p);
        }
        i = i + 1;
    }
    assert(v@.take(i as int) =~= v@);
    out
}

fn keep_triples(v: &Vec<(usize, usize, i32)>, x: usize, y: usize) -> (out: Vec<(usize, usize, i32)>)
    ensures
        out@ == triples_off(v@, x, y),
{
    let ghost pred = triple_elsewhere(x, y);
    let mut out: Vec<(usize, usize, i32)> = Vec::new();
    let mut i: usize = 0;
    while i < v.len()
        invariant
            i <= v@.len(),
            pred == triple_elsewhere(x, y),
            out@ == v@.take(i as int).filter(pred),
        decreases v@.len() - i,
    {
        let p = v[i];
        proof {
            reveal(Seq::filter);
            assert(v@.take(i + 1).drop_last() =~= v@.take(i as int));
            assert(v@.take(i + 1).last() == p);
        }
        if !(p.0 == x && p.1 == y) {
            out.push(p);
        }
        i = i + 1;
    }
    assert(v@.take(i as int) =~= v@);
    out
}

/// The tiles after `set(x, y, t)`: one tile changes when (x, y) is on the grid.
pub open spec fn tile_set(m: DungeonMap, x: int, y: int, t: Tile) -> Seq<Tile> {
    if 0 <= x < m.w && 0 <= y < m.h { m.tiles@.update(y * m.w + x, t) } else { m.tiles@ }
}

/// The tile each brush lays down (chests, mobs: floor; graffiti: wall; NPCs: safe floor).
pub open spec fn brush_tile(b: int) -> Tile {
    if b == 1 || b == 6 {
        Tile::Wall
    } else if b == 2 || b == 11 {
        Tile::Safe
    } else if b == 3 {
        Tile::Campfire
    } else if b == 4 {
        Tile::Stairs
    } else {
        Tile::Floor
    }
}

/// On the border ring of the map, which the editor keeps sealed.
pub open spec fn on_border(m: DungeonMap, x: int, y: int) -> bool {
    x == 0 || y == 0 || x >= m.w - 1 || y >= m.h - 1
}

/// The map's lists and size otherwise unchanged.
pub open spec fn same_frame(a: DungeonMap, b: DungeonMap) -> bool {
    &&& b.w == a.w && b.h == a.h
    &&& b.rooms == a.rooms && b.spawn == a.spawn && b.has_shop == a.has_shop
}

/// Painting tile (x, y) with the brush in hand: off the border, its markers
/// are cleared, the brush's tile laid and its marker (chest, graffiti, mob
/// of tier 1 to 4, NPC) placed.
pub open spec fn painted(old: Editor, new: Editor, x: usize, y: usize) -> bool {
    let m = old.map;
    let b = old.brush as int;
    if on_border(m, x as int, y as int) {
        new == old
    } else {
        &&& new.brush == old.brush && new.status == old.status
        &&& same_frame(m, new.map)
        &&& new.map.tiles@ == (if b <= 11 { tile_set(m, (x as i32) as int, (y as i32) as int, brush_tile(b)) } else {
            m.tiles@
        })
        &&& new.map.graffiti@ == graffiti_off(m.graffiti@, x, y) + (if b == 6 {
            seq![Graffiti { x, y, text_idx: ((7 * x + 13 * y) % 16) as usize }]
        } else {
            Seq::empty()
        })
        &&& new.map.chest_spots@ == pairs_off(m.chest_spots@, x, y) + (if b == 5 { seq![(x, y)] } else { Seq::empty() })
        &&& new.map.mob_spots@ == triples_off(m.mob_spots@, x, y) + (if 7 <= b <= 10 {
            seq![(x, y, (b - 6) as i32)]
        } else {
            Seq::empty()
        })
        &&& new.map.npc_spots@ == pairs_off(m.npc_spots@, x, y) + (if b == 11 { seq![(x, y)] } else { Seq::empty() })
    }
}

impl Editor {
    /// A fresh canvas with the floor brush.
    pub fn new() -> (e: Editor)
        ensures
            is_blank(e.map),
            e.brush == 0,
            e.status@ == "Paint with the mouse. [G] generates a start point."@,
    {
        Editor {
            map: blank_map(),
            brush: 0,
            status: String::from_str("Paint with the mouse. [G] generates a start point."),
        }
    }

    /// Removes the graffiti, chest, mob and NPC markers on tile (x, y).
    fn clear_markers(&mut self, x: usize, y: usize)
        ensures
            markers_cleared(old(self).map, final(self).map, x, y),
            final(self).map.tiles == old(self).map.tiles,
            same_frame(old(self).map, final(self).map),
            final(self).brush == old(self).brush && final(self).status == old(self).status,
    {
        self.map.graffiti = keep_graffiti(&self.map.graffiti, x, y);
        self.map.chest_spots = keep_pairs(&self.map.chest_spots, x, y);
        self.map.mob_spots = keep_triples(&self.map.mob_spots, x, y);
        self.map.npc_spots = keep_pairs(&self.map.npc_spots, x, y);
    }

    /// Paints tile (x, y) with the brush in hand (see `painted`).
    pub fn paint(&mut self, x: usize, y: usize)
        requires
            old(self).map.wf(),
            old(self).map.w >= 1 && old(self).map.h >= 1,
            old(self).brush == 6 ==> 7 * x + 13 * y <= usize::MAX,
        ensures
            painted(*old(self), *final(self), x, y),
            final(self).map.wf(),
    {
        if x == 0 || y == 0 || x >= self.map.w - 1 || y >= self.map.h - 1 {
            return;
        }
        self.clear_markers(x, y);
        let xi = x as i32;
        let yi = y as i32;
        let ghost before = self.map;
        let b = self.brush;
        if b == 0 {
            self.map.set(xi, yi, Tile::Floor);
        } else if b == 1 {
            self.map.set(xi, yi, Tile::Wall);
        } else if b == 2 {
            self.map.set(xi, yi, Tile::Safe);
        } else if b == 3 {
            self.map.set(xi, yi, Tile::Campfire);
        } else if b == 4 {
            self.map.set(xi, yi, Tile::Stairs);
        } else if b == 5 {
            self.map.set(xi, yi, Tile::Floor);
            self.map.chest_spots.push((x, y));
        } else if b == 6 {
            self.map.set(xi, yi, Tile::Wall);
            self.map.graffiti.push(Graffiti { x, y, text_idx: (x * 7 + y * 13) % 16 });
        } else if b <= 10 {
            self.map.set(xi, yi, Tile::Floor);
            self.map.mob_spots.push((x, y, (b - 6) as i32));
        } else if b == 11 {
            self.map.set(xi, yi, Tile::Safe);
            self.map.npc_spots.push((x, y));
        }
        assert(self.map.graffiti@ =~= before.graffiti@ + (if b == 6 {
            seq![Graffiti { x, y, text_idx: ((7 * x + 13 * y) % 16) as usize }]
        } else {
            Seq::empty()
        }));
        assert(self.map.chest_spots@ =~= before.chest_spots@ + (if b == 5 { seq![(x, y)] } else { Seq::empty() }));
        assert(self.map.mob_spots@ =~= before.mob_spots@ + (if 7 <= b <= 10 {
            seq![(x, y, (b - 6) as i32)]
        } else {
            Seq::empty()
        }));
        assert(self.map.npc_spots@ =~= before.npc_spots@ + (if b == 11 { seq![(x, y)] } else { Seq::empty() }));
    }

    /// Erases tile (x, y) back to wall, markers and all (the border ring is
    /// left alone).
    pub fn erase(&mut self, x: usize, y: usize)
        requires
            old(self).map.wf(),
            old(self).map.w >= 1 && old(self).map.h >= 1,
        ensures
            final(self).map.wf(),
            on_border(old(self).map, x as int, y as int) ==> *final(self) == *old(self),
            !on_border(old(self).map, x as int, y as int) ==> {
                &&& markers_cleared(old(self).map, final(self).map, x, y)
                &&& final(self).map.tiles@ == tile_set(old(self).map, (x as i32) as int, (y as i32) as int, Tile::Wall)
                &&& same_frame(old(self).map, final(self).map)
                &&& final(self).brush == old(self).brush && final(self).status == old(self).status
            },
    {
        if x > 0 && y > 0 && x < self.map.w - 1 && y < self.map.h - 1 {
            self.clear_markers(x, y);
            self.map.set(x as i32, y as i32, Tile::Wall);
        }
    }

    /// Puts the player spawn in the middle of tile (tx, ty).
    pub fn set_spawn(&mut self, tx: i32, ty: i32)
        ensures
            final(self).map.spawn.0 == tx * SUBTILE + 500,
            final(self).map.spawn.1 == ty * SUBTILE + 500,
            final(self).status@ == "Player spawn set."@,
            final(self).map.tiles == old(self).map.tiles,
            final(self).map.w == old(self).map.w && final(self).map.h == old(self).map.h,
            final(self).map.rooms == old(self).map.rooms && final(self).map.has_shop == old(self).map.has_shop,
            final(self).map.graffiti == old(self).map.graffiti && final(self).map.chest_spots == old(self).map.chest_spots,
            final(self).map.mob_spots == old(self).map.mob_spots && final(self).map.npc_spots == old(self).map.npc_spots,
            final(self).brush == old(self).brush,
    {
        self.map.spawn = (tx as i64 * SUBTILE + 500, ty as i64 * SUBTILE + 500);
        self.status = String::from_str("Player spawn set.");
    }

    /// The previous brush (stops at the first).
    pub fn prev_brush(&mut self)
        ensures
            final(self).brush == (if old(self).brush > 0 { old(self).brush - 1 } else { old(self).brush as int }),
            final(self).map == old(self).map && final(self).status == old(self).status,
    {
        if self.brush > 0 {
            self.brush = self.brush - 1;
        }
    }

    /// The next brush (stops at the last).
    pub fn next_brush(&mut self)
        ensures
            final(self).brush == (if old(self).brush < 11 { old(self).brush + 1 } else { old(self).brush as int }),
            final(self).map == old(self).map && final(self).status == old(self).status,
    {
        if self.brush < BRUSHES.len() - 1 {
            self.brush = self.brush + 1;
        }
    }

    /// Starts over on a fresh canvas.
    pub fn fresh(&mut self)
        ensures
            is_blank(final(self).map),
            final(self).brush == old(self).brush,
            final(self).status@ == "Fresh canvas. The dungeon is yours, comrade."@,
    {
        self.map = blank_map();
        self.status = String::from_str("Fresh canvas. The dungeon is yours, comrade.");
    }

    /// Replaces the canvas with a procedural depth-1 level to remix.
    pub fn remix(&mut self, graffiti_count: usize)
        requires
            graffiti_count <= i32::MAX,
        ensures
            generated(final(self).map, 1, graffiti_count as int),
            final(self).brush == old(self).brush,
            final(self).status@ == "Generated a level to remix."@,
    {
        self.map = generate(1, graffiti_count);
        self.status = String::from_str("Generated a level to remix.");
    }
}

/// Painting keeps the border ring sealed: no tile on it changes.
pub proof fn lemma_border_sealed(old: Editor, new: Editor, x: usize, y: usize, bx: int, by: int)
    requires
        painted(old, new, x, y),
        old.map.wf(),
        x <= i32::MAX && y <= i32::MAX,
        0 <= bx < old.map.w && 0 <= by < old.map.h,
        on_border(old.map, bx, by),
    ensures
        new.map.spec_tile(bx, by) == old.map.spec_tile(bx, by),
{
    let m = old.map;
    if !on_border(m, x as int, y as int) && old.brush <= 11 {
        assert((x as i32) as int == x as int);
        assert((y as i32) as int == y as int);
        crate::dungeon::lemma_row_major(x as int, y as int, m.w as int, m.h as int);
        crate::dungeon::lemma_row_major(bx, by, m.w as int, m.h as int);
        assert(y * m.w + x != by * m.w + bx) by (nonlinear_arith)
            requires
                0 <= x < m.w,
                0 <= bx < m.w,
                0 <= y < m.h,
                0 <= by < m.h,
                x != bx || y != by,
        ;
    }
}


/// Painting an inner tile lays the tile the brush in hand is named for:
/// "Stairs down" lays stairs, "Campfire" a campfire, "Wall" and "Graffiti"
/// wall, "Safe floor" and "NPC" safe floor, and the floor, chest and mob
/// brushes plain floor.
pub proof fn lemma_paint_lays_named_tile(old: Editor, new: Editor, x: usize, y: usize)
    requires
        painted(old, new, x, y),
        old.map.wf(),
        !on_border(old.map, x as int, y as int),
        x < old.map.w && y < old.map.h,
        x <= i32::MAX && y <= i32::MAX,
        old.brush < 12,
    ensures
        ({
            let name = BRUSHES@[old.brush as int]@;
            let t = new.map.spec_tile(x as int, y as int);
            &&& name == "Stairs down"@ ==> t == Tile::Stairs
            &&& name == "Campfire"@ ==> t == Tile::Campfire
            &&& (name == "Wall"@ || name == "Graffiti"@) ==> t == Tile::Wall
            &&& (name == "Safe floor"@ || name == "NPC"@) ==> t == Tile::Safe
            &&& (name == "Floor"@ || name == "Chest"@ || name == "Mob T1"@ || name == "Mob T2"@ || name == "Mob T3"@
                || name == "Boss (T4)"@) ==> t == Tile::Floor
        }),
{
    reveal_strlit("Floor");
    reveal_strlit("Wall");
    reveal_strlit("Safe floor");
    reveal_strlit("Campfire");
    reveal_strlit("Stairs down");
    reveal_strlit("Chest");
    reveal_strlit("Graffiti");
    reveal_strlit("Mob T1");
    reveal_strlit("Mob T2");
    reveal_strlit("Mob T3");
    reveal_strlit("Boss (T4)");
    reveal_strlit("NPC");
    let m = old.map;
    lemma_row_major(x as int, y as int, m.w as int, m.h as int);
    let b = old.brush as int;
    let name = BRUSHES@[b]@;
    assert(new.map.spec_tile(x as int, y as int) == brush_tile(b));
    assert("Campfire"@[0] != "Graffiti"@[0]);
    assert("Mob T1"@[5] != "Mob T2"@[5] && "Mob T2"@[5] != "Mob T3"@[5] && "Mob T1"@[5] != "Mob T3"@[5]);
    assert("Floor"@[0] != "Chest"@[0]);
    assert("Floor"@.len() == 5);
    assert("Wall"@.len() == 4);
    assert("Safe floor"@.len() == 10);
    assert("Campfire"@.len() == 8);
    assert("Stairs down"@.len() == 11);
    assert("Chest"@.len() == 5);
    assert("Graffiti"@.len() == 8);
    assert("Mob T1"@.len() == 6);
    assert("Mob T2"@.len() == 6);
    assert("Mob T3"@.len() == 6);
    assert("Boss (T4)"@.len() == 9);
    assert("NPC"@.len() == 3);
    if b == 0 {
        assert(name == "Floor"@);
    } else if b == 1 {
        assert(name == "Wall"@);
    } else if b == 2 {
        assert(name == "Safe floor"@);
    } else if b == 3 {
        assert(name == "Campfire"@);
    } else if b == 4 {
        assert(name == "Stairs down"@);
    } else if b == 5 {
        assert(name == "Chest"@);
    } else if b == 6 {
        assert(name == "Graffiti"@);
    } else if b == 7 {
        assert(name == "Mob T1"@);
    } else if b == 8 {
        assert(name == "Mob T2"@);
    } else if b == 9 {
        assert(name == "Mob T3"@);
    } else if b == 10 {
        assert(name == "Boss (T4)"@);
    } else if b == 11 {
        assert(name == "NPC"@);
    }
}

} // verus!
