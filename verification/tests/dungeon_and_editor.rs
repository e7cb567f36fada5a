use capitol_dungeon::dungeon::{
    from_custom, generate, tier_for_roll, to_custom, CustomLevel, Room, Tile, MAP_H, MAP_W, SUBTILE,
};
use capitol_dungeon::editor::{blank_map, Editor, BRUSHES};

fn level(rows: &[&str]) -> CustomLevel {
    CustomLevel { name: "t".to_string(), rows: rows.iter().map(|s| s.to_string()).collect() }
}

fn count(m: &capitol_dungeon::dungeon::DungeonMap, t: Tile) -> usize {
    m.tiles.iter().filter(|x| **x == t).count()
}

#[test]
fn tiles_walk_and_shelter() {
    assert!(Tile::Floor.walkable());
    assert!(!Tile::Wall.walkable());
    assert!(Tile::Stairs.walkable());
    assert!(Tile::Safe.safe());
    assert!(Tile::Campfire.safe());
    assert!(!Tile::Floor.safe());
    assert!(!Tile::Stairs.safe());
}

#[test]
fn room_center_rounds_toward_origin() {
    assert_eq!(Room { x: 2, y: 3, w: 5, h: 4 }.center(), (4, 5));
    assert_eq!(Room { x: 0, y: 0, w: -3, h: 1 }.center(), (-1, 0));
}

#[test]
fn tiers_by_depth_and_roll() {
    assert_eq!(tier_for_roll(1, 99), 1);
    assert_eq!(tier_for_roll(2, 74), 1);
    assert_eq!(tier_for_roll(2, 75), 2);
    assert_eq!(tier_for_roll(4, 39), 1);
    assert_eq!(tier_for_roll(4, 84), 2);
    assert_eq!(tier_for_roll(4, 85), 3);
    assert_eq!(tier_for_roll(6, 19), 1);
    assert_eq!(tier_for_roll(6, 59), 2);
    assert_eq!(tier_for_roll(9, 34), 2);
    assert_eq!(tier_for_roll(9, 35), 3);
    assert_eq!(tier_for_roll(0, 0), 2);
}

#[test]
fn generated_level_shape() {
    for depth in 1..8 {
        let m = generate(depth, 5);
        assert_eq!((m.w, m.h), (MAP_W, MAP_H));
        assert_eq!(m.tiles.len(), MAP_W * MAP_H);
        assert!(m.rooms.len() >= 1 && m.rooms.len() <= 14 + depth as usize);
        assert_eq!(m.has_shop, depth % 2 == 1);
        assert_eq!(count(&m, Tile::Stairs), 1);
        assert!(m.graffiti.len() <= 5);
        for x in 0..MAP_W as i32 {
            assert_eq!(m.tile(x, 0), Tile::Wall);
            assert_eq!(m.tile(x, MAP_H as i32 - 1), Tile::Wall);
        }
        let (cx, cy) = m.rooms[0].center();
        assert_eq!(m.spawn, (cx as i64 * SUBTILE + 500, cy as i64 * SUBTILE + 1800));
        for &(x, y) in &m.npc_spots {
            assert!(m.tile(x as i32, y as i32).safe());
        }
        for &(x, y) in &m.chest_spots {
            assert_eq!(m.tile(x as i32, y as i32), Tile::Floor);
        }
    }
}

#[test]
fn every_fifth_depth_has_the_boss_on_the_stairs() {
    for _ in 0..5 {
        let m = generate(5, 3);
        if m.rooms.len() > 1 {
            let boss = m.mob_spots.iter().find(|s| s.2 == 4).expect("a boss");
            assert_eq!(m.tile(boss.0 as i32, boss.1 as i32), Tile::Stairs);
        }
        let m2 = generate(3, 3);
        assert!(m2.mob_spots.iter().all(|s| s.2 != 4));
    }
}

#[test]
fn custom_level_reads_the_legend() {
    let m = from_custom(&level(&["#####", "#@.C#", "#1ng#", "#####"]), 4).expect("parses");
    assert_eq!((m.w, m.h), (5, 4));
    assert_eq!(m.tile(1, 1), Tile::Floor);
    assert_eq!(m.tile(3, 1), Tile::Floor);
    assert_eq!(m.tile(2, 2), Tile::Safe);
    assert_eq!(m.tile(3, 2), Tile::Wall);
    assert_eq!(m.spawn, (1500, 1500));
    assert_eq!(m.chest_spots, vec![(3, 1)]);
    assert_eq!(m.mob_spots, vec![(1, 2, 1)]);
    assert_eq!(m.npc_spots, vec![(2, 2)]);
    assert_eq!(m.graffiti.len(), 1);
    assert_eq!((m.graffiti[0].x, m.graffiti[0].y, m.graffiti[0].text_idx), (3, 2, (7 * 3 + 13 * 2) % 4));
    assert!(m.has_shop);
    assert!(m.rooms.is_empty());
}

#[test]
fn custom_level_pads_short_rows_and_defaults_spawn() {
    let m = from_custom(&level(&["...", ".", ">c"]), 0).expect("parses");
    assert_eq!((m.w, m.h), (3, 3));
    assert_eq!(m.tile(2, 1), Tile::Wall);
    assert_eq!(m.tile(0, 2), Tile::Stairs);
    assert_eq!(m.tile(1, 2), Tile::Campfire);
    assert_eq!(m.spawn, (2000, 2000));
}

#[test]
fn too_small_custom_levels_are_refused() {
    assert!(from_custom(&level(&["###", "###"]), 1).is_none());
    assert!(from_custom(&level(&["##", "##", "##"]), 1).is_none());
    assert!(from_custom(&level(&[]), 1).is_none());
}

#[test]
fn text_level_round_trips() {
    let rows = ["#####", "#@.C#", "#1ng#", "#s>c#", "#####"];
    let m = from_custom(&level(&rows), 4).expect("parses");
    let back = to_custom(&m, "again");
    assert_eq!(back.name, "again");
    assert_eq!(back.rows, level(&rows).rows);
}

#[test]
fn generated_level_survives_text() {
    let m = generate(2, 6);
    let text = to_custom(&m, "custom");
    let m2 = from_custom(&text, 6).expect("parses");
    assert_eq!((m2.w, m2.h), (m.w, m.h));
    let spawn = ((m.spawn.0 / SUBTILE) as usize, (m.spawn.1 / SUBTILE) as usize);
    for y in 0..m.h {
        for x in 0..m.w {
            let marked = (x, y) == spawn
                || m.npc_spots.contains(&(x, y))
                || m.chest_spots.contains(&(x, y))
                || m.mob_spots.iter().any(|s| s.0 == x && s.1 == y)
                || m.graffiti.iter().any(|g| g.x == x && g.y == y);
            if !marked {
                assert_eq!(m2.tile(x as i32, y as i32), m.tile(x as i32, y as i32));
            }
        }
    }
}

#[test]
fn blank_canvas_has_a_safe_room_and_fire() {
    let m = blank_map();
    assert_eq!((m.w, m.h), (MAP_W, MAP_H));
    assert_eq!(m.tile(5, 4), Tile::Campfire);
    assert_eq!(m.tile(2, 2), Tile::Safe);
    assert_eq!(m.tile(9, 7), Tile::Safe);
    assert_eq!(m.tile(10, 7), Tile::Wall);
    assert_eq!(m.tile(9, 8), Tile::Wall);
    assert_eq!(count(&m, Tile::Safe), 8 * 6 - 1);
    assert_eq!(m.spawn, (3500, 3500));
    assert!(m.has_shop);
}

#[test]
fn painting_places_tiles_and_markers() {
    let mut e = Editor::new();
    assert_eq!(e.brush, 0);
    assert_eq!(e.status, "Paint with the mouse. [G] generates a start point.");
    e.brush = 5;
    e.paint(20, 20);
    assert_eq!(e.map.tile(20, 20), Tile::Floor);
    assert_eq!(e.map.chest_spots, vec![(20, 20)]);
    e.brush = 9;
    e.paint(20, 20);
    assert!(e.map.chest_spots.is_empty());
    assert_eq!(e.map.mob_spots, vec![(20, 20, 3)]);
    e.brush = 6;
    e.paint(3, 4);
    assert_eq!(e.map.tile(3, 4), Tile::Wall);
    assert_eq!(e.map.graffiti[0].text_idx, (3 * 7 + 4 * 13) % 16);
    e.brush = 11;
    e.paint(30, 30);
    assert_eq!(e.map.tile(30, 30), Tile::Safe);
    assert_eq!(e.map.npc_spots, vec![(30, 30)]);
}

#[test]
fn painting_keeps_the_border_sealed() {
    let mut e = Editor::new();
    e.brush = 0;
    e.paint(0, 10);
    e.paint(10, 0);
    e.paint(MAP_W - 1, 10);
    e.paint(10, MAP_H - 1);
    assert_eq!(e.map.tile(0, 10), Tile::Wall);
    assert_eq!(e.map.tile(10, 0), Tile::Wall);
    assert_eq!(e.map.tile(MAP_W as i32 - 1, 10), Tile::Wall);
    assert_eq!(e.map.tile(10, MAP_H as i32 - 1), Tile::Wall);
}

#[test]
fn erasing_clears_markers_to_wall() {
    let mut e = Editor::new();
    e.brush = 11;
    e.paint(4, 4);
    e.erase(4, 4);
    assert_eq!(e.map.tile(4, 4), Tile::Wall);
    assert!(e.map.npc_spots.is_empty());
    e.erase(0, 0);
    assert_eq!(e.map.tile(0, 0), Tile::Wall);
}

#[test]
fn brushes_step_within_bounds() {
    let mut e = Editor::new();
    e.prev_brush();
    assert_eq!(e.brush, 0);
    for _ in 0..20 {
        e.next_brush();
    }
    assert_eq!(e.brush, BRUSHES.len() - 1);
    e.prev_brush();
    assert_eq!(e.brush, 10);
}

#[test]
fn spawn_and_canvas_commands() {
    let mut e = Editor::new();
    e.set_spawn(7, 9);
    assert_eq!(e.map.spawn, (7500, 9500));
    assert_eq!(e.status, "Player spawn set.");
    e.remix(4);
    assert_eq!(e.status, "Generated a level to remix.");
    assert!(!e.map.rooms.is_empty());
    e.fresh();
    assert_eq!(e.status, "Fresh canvas. The dungeon is yours, comrade.");
    assert_eq!(e.map.tile(5, 4), Tile::Campfire);
    assert!(e.map.rooms.is_empty());
}

#[test]
fn mobs_keep_out_of_safe_tiles() {
    let m = from_custom(&level(&["#####", "#.s.#", "#..c#", "#####"]), 0).expect("parses");
    assert!(m.mob_may_step(1, 1, 1, 2, 1, 1));
    assert!(!m.mob_may_step(2, 2, 1, 1, 2, 1));
    assert!(!m.mob_may_step(3, 3, 2, 2, 3, 2));
    assert!(!m.mob_may_step(0, 1, 1, 1, 1, 1));
    assert!(m.area_free(1, 3, 1, 2));
}

#[test]
fn every_walkable_tile_is_reachable_from_the_campfire() {
    for depth in [1, 2, 5, 10, 23] {
        let m = generate(depth, 4);
        let (cx, cy) = m.rooms[0].center();
        let mut seen = vec![false; m.w * m.h];
        let mut todo = vec![(cx, cy)];
        seen[cy as usize * m.w + cx as usize] = true;
        while let Some((x, y)) = todo.pop() {
            for (dx, dy) in [(1, 0), (-1, 0), (0, 1), (0, -1)] {
                let (nx, ny) = (x + dx, y + dy);
                if m.tile(nx, ny).walkable() && !seen[ny as usize * m.w + nx as usize] {
                    seen[ny as usize * m.w + nx as usize] = true;
                    todo.push((nx, ny));
                }
            }
        }
        for y in 0..m.h as i32 {
            for x in 0..m.w as i32 {
                if m.tile(x, y).walkable() {
                    assert!(seen[y as usize * m.w + x as usize], "({}, {}) at depth {}", x, y, depth);
                }
            }
        }
    }
}

#[test]
fn deeper_rooms_try_more_mob_spots() {
    for _ in 0..20 {
        let m = generate(9, 0);
        let rooms_with_mobs = (1..m.rooms.len())
            .filter(|&i| {
                let r = m.rooms[i];
                m.mob_spots.iter().any(|s| {
                    (s.0 as i32) >= r.x && (s.0 as i32) < r.x + r.w && (s.1 as i32) >= r.y && (s.1 as i32) < r.y + r.h
                })
            })
            .count();
        assert!(rooms_with_mobs >= 1);
    }
}

#[test]
fn rooms_intersect_symmetrically() {
    let a = Room { x: 0, y: 0, w: 2, h: 2 };
    let gap = Room { x: 3, y: 0, w: 2, h: 2 };
    let touching = Room { x: 2, y: 0, w: 2, h: 2 };
    assert!(!a.intersects(&gap) && !gap.intersects(&a));
    assert!(a.intersects(&touching) && touching.intersects(&a));
}
