use capitol_dungeon::content::{
    AchievementDef, BanterDef, Content, DropDef, ItemDef, MobDef, NpcDef, SpellDef,
};
use capitol_dungeon::dungeon::{CustomLevel, Tile, MAP_H, MAP_W};
use capitol_dungeon::save::{apply, snapshot};
use capitol_dungeon::spawn::spawn_plan;
use capitol_dungeon::world::{banter_pair, muse, muse_on_roll, shop_stock_for, shout};
use capitol_dungeon::progress::{bite, hit_damage, strike, swing, swing_on_rolls};
use capitol_dungeon::world::{interaction_hint, GameEvent, Interaction, ItemStack, Player, World, INV_CAP, MAX_TOASTS};

fn item(id: &str, name: &str, kind: &str, atk: i32, hp: i32, heal: i32, value: i32, tier: i32) -> ItemDef {
    ItemDef {
        id: id.to_string(),
        name: name.to_string(),
        desc: String::new(),
        kind: kind.to_string(),
        atk,
        def: 0,
        hp,
        mp: 0,
        spd: 0,
        heal,
        mana: 0,
        value,
        tier,
        wclass: String::new(),
        palette: Vec::new(),
        sprite: Vec::new(),
    }
}

fn mob(name: &str, gold_min: i32, gold_max: i32, xp: i32, boss: bool, drops: Vec<DropDef>) -> MobDef {
    MobDef {
        id: name.to_lowercase(),
        name: name.to_string(),
        hp: 10,
        atk: 3,
        def: 1,
        speed: 4000,
        xp,
        gold_min,
        gold_max,
        tier: 1,
        boss,
        lines: Vec::new(),
        drops,
        palette: Vec::new(),
        sprite: Vec::new(),
    }
}

fn spell(name: &str, cost: i32, damage: i32, radius: i32, heal: i32, unlock: i32) -> SpellDef {
    SpellDef {
        id: name.to_lowercase(),
        name: name.to_string(),
        desc: format!("{} desc", name),
        cost,
        damage,
        radius,
        heal,
        range: 600,
        unlock_level: unlock,
        color: "#ffffff".to_string(),
    }
}

fn content() -> Content {
    Content {
        mobs: vec![
            mob("Rat Racer", 2, 2, 5, false, vec![DropDef { item: "bread".to_string(), chance: 1_000_000 }]),
            mob("Vulture Capitalist", 50, 60, 100, true, vec![DropDef { item: "ring".to_string(), chance: 0 }]),
        ],
        items: vec![
            item("bread", "Bread", "potion", 0, 0, 10, 4, 1),
            item("rusty_shiv", "Rusty Shiv", "weapon", 2, 0, 0, 6, 1),
            item("sword", "Strike Sword", "weapon", 5, 0, 0, 30, 1),
            item("helm", "Hard Hat", "head", 0, 10, 0, 11, 1),
            item("ring", "Union Ring", "ring", 1, 0, 0, -3, 9),
        ],
        npcs: vec![
            NpcDef {
                id: "medic".to_string(),
                name: "Medic Rosa".to_string(),
                shopkeeper: false,
                fighter: false,
                hp: 10,
                atk: 1,
                lines: vec!["Healthcare is a right.".to_string()],
                palette: Vec::new(),
                sprite: Vec::new(),
            },
            NpcDef {
                id: "qm".to_string(),
                name: "Quartermaster".to_string(),
                shopkeeper: true,
                fighter: false,
                hp: 10,
                atk: 1,
                lines: Vec::new(),
                palette: Vec::new(),
                sprite: Vec::new(),
            },
        ],
        spells: vec![
            spell("Spark", 5, 8, 0, 0, 1),
            spell("Mutual Aid", 6, 0, 0, 15, 2),
            spell("Strike", 10, 6, 250, 0, 3),
        ],
        achievements: vec![
            AchievementDef {
                id: "first_blood".to_string(),
                name: "Seize the Means".to_string(),
                desc: "Defeat an exploiter".to_string(),
                stat: "kills".to_string(),
                threshold: 1,
            },
            AchievementDef {
                id: "level3".to_string(),
                name: "Organized".to_string(),
                desc: "Reach level 3".to_string(),
                stat: "level".to_string(),
                threshold: 3,
            },
        ],
        graffiti: vec!["EAT THE RICH".to_string(), "UNION YES".to_string()],
        banter: Vec::new(),
        skills: Vec::new(),
        emotes_npc: Vec::new(),
        emotes_mob: Vec::new(),
        prefixes: Vec::new(),
        suffixes: Vec::new(),
    }
}

fn pack(p: &Player) -> Vec<(String, i32)> {
    p.inventory.iter().map(|s| (s.id.clone(), s.qty)).collect()
}

fn last_toast(w: &World) -> String {
    w.toasts.back().map(|t| t.0.clone()).unwrap_or_default()
}

#[test]
fn fresh_player_numbers() {
    let p = Player::new();
    assert_eq!((p.hp, p.mp, p.base_atk, p.base_def, p.base_spd), (40, 20, 3, 0, 92));
    assert_eq!((p.xp, p.level, p.gold), (0, 1, 25));
    assert_eq!(pack(&p), vec![("bread".to_string(), 2), ("rusty_shiv".to_string(), 1)]);
    assert!(p.equipment.is_empty());
}

#[test]
fn xp_needed_grows_as_level_to_the_three_halves() {
    let mut p = Player::new();
    let mut expected = Vec::new();
    let mut got = Vec::new();
    for l in [1, 2, 3, 4, 9, 10] {
        p.level = l;
        got.push(p.xp_to_next());
        expected.push((24.0 * (l as f64).powf(1.5)) as i64);
    }
    assert_eq!(got, vec![24, 67, 124, 192, 648, 758]);
    assert_eq!(got, expected);
    p.level = 0;
    assert_eq!(p.xp_to_next(), 0);
}

#[test]
fn backpack_stacks_and_fills() {
    let mut p = Player::new();
    assert!(p.add_item("bread"));
    assert_eq!(p.inventory[0].qty, 3);
    assert!(p.add_item("helm"));
    assert_eq!(p.inventory.len(), 3);
    for i in 0..INV_CAP {
        p.add_item(&format!("junk{}", i));
    }
    assert_eq!(p.inventory.len(), INV_CAP);
    assert!(!p.add_item("one_more"));
    assert!(p.add_item("bread"));
    assert_eq!(p.inventory.len(), INV_CAP);
}

#[test]
fn removing_the_last_of_a_stack_drops_it() {
    let mut p = Player::new();
    p.remove_item(1);
    assert_eq!(pack(&p), vec![("bread".to_string(), 2)]);
    p.remove_item(0);
    assert_eq!(pack(&p), vec![("bread".to_string(), 1)]);
    p.remove_item(5);
    assert_eq!(pack(&p), vec![("bread".to_string(), 1)]);
}

#[test]
fn adding_then_removing_restores_the_pack() {
    let mut p = Player::new();
    let before = pack(&p);
    p.add_item("helm");
    p.remove_item(2);
    assert_eq!(pack(&p), before);
    p.add_item("bread");
    p.remove_item(0);
    assert_eq!(pack(&p), before);
}

#[test]
fn gear_adds_to_totals() {
    let c = content();
    let mut p = Player::new();
    p.equipment.push(("weapon".to_string(), "sword".to_string()));
    p.equipment.push(("head".to_string(), "helm".to_string()));
    p.equipment.push(("ring".to_string(), "missing".to_string()));
    assert_eq!(p.totals(&c), (8, 0, 50, 20, 92));
}

#[test]
fn new_world_starts_at_depth_one() {
    let c = content();
    let w = World::new(&c);
    assert_eq!(w.depth, 1);
    assert_eq!(w.chests.len(), w.map.chest_spots.len());
    assert!(w.chests.iter().all(|ch| !ch.opened));
    assert!(w.shop_stock.len() <= 5);
    assert!(w.map.has_shop);
    for (i, s) in w.shop_stock.iter().enumerate() {
        assert!(c.items.iter().any(|it| &it.id == s && it.tier <= 1));
        assert!(!w.shop_stock[..i].contains(s));
    }
    assert!(w.stats.is_empty() && w.toasts.is_empty());
}

#[test]
fn toasts_keep_the_newest_four() {
    let c = content();
    let mut w = World::new(&c);
    for i in 0..6 {
        w.toast(format!("t{}", i));
    }
    assert_eq!(w.toasts.len(), MAX_TOASTS);
    assert_eq!(w.toasts[0].0, "t2");
    assert_eq!(w.toasts[3], ("t5".to_string(), 4000));
}

#[test]
fn only_the_oldest_toast_ticks() {
    let c = content();
    let mut w = World::new(&c);
    w.toast("a".to_string());
    w.toast("b".to_string());
    w.tick_toasts(1500);
    assert_eq!(w.toasts[0].1, 2500);
    assert_eq!(w.toasts[1].1, 4000);
    w.tick_toasts(2500);
    assert_eq!(w.toasts.len(), 1);
    assert_eq!(w.toasts[0].0, "b");
}

#[test]
fn stats_add_and_unlock_achievements() {
    let c = content();
    let mut w = World::new(&c);
    assert_eq!(w.stat("kills"), 0);
    w.add_stat("kills", 1, &c);
    assert_eq!(w.stat("kills"), 1);
    assert_eq!(w.unlocked, vec!["first_blood".to_string()]);
    assert_eq!(last_toast(&w), "Achievement: Seize the Means — Defeat an exploiter");
    w.add_stat("kills", 1, &c);
    assert_eq!(w.unlocked.len(), 1);
    assert_eq!(w.toasts.len(), 1);
}

#[test]
fn stat_maximum_never_drops() {
    let c = content();
    let mut w = World::new(&c);
    w.bump_stat_max("depth", 4, &c);
    w.bump_stat_max("depth", 2, &c);
    assert_eq!(w.stat("depth"), 4);
    w.bump_stat_max("gold", -5, &c);
    assert_eq!(w.stat("gold"), 0);
}

#[test]
fn descending_counts_depth_and_announces() {
    let c = content();
    let mut w = World::new(&c);
    w.descend(&c, None);
    assert_eq!(w.depth, 2);
    assert!(!w.map.has_shop);
    assert!(w.shop_stock.is_empty());
    assert_eq!(w.stat("depth"), 2);
    assert_eq!(last_toast(&w), "Depth 2 — the air smells of unpaid invoices.");
}

#[test]
fn interact_descends_rests_talks() {
    let c = content();
    let mut w = World::new(&c);
    let stairs = find(&w, Tile::Stairs);
    let fire = find(&w, Tile::Campfire);
    assert!(matches!(w.interact(&c, stairs, stairs, None, None, None), Interaction::Descend));
    w.player.hp = 1;
    assert!(matches!(w.interact(&c, (0, 0), fire, Some(0), None, None), Interaction::Rested));
    assert_eq!(w.player.hp, 40);
    assert_eq!(w.stat("rests"), 1);
    assert_eq!(w.events.last(), Some(&GameEvent::Rest));
    match w.interact(&c, (0, 0), (0, 0), Some(0), None, None) {
        Interaction::Dialog { who, text } => {
            assert_eq!(who, "Medic Rosa");
            assert_eq!(text, "Healthcare is a right.");
        }
        _ => panic!("expected dialog"),
    }
    assert_eq!(w.stat("talks"), 1);
    assert!(matches!(w.interact(&c, (0, 0), (0, 0), Some(1), None, None), Interaction::Shop));
    assert!(matches!(w.interact(&c, (0, 0), (0, 0), None, None, None), Interaction::Nothing));
}

fn find(w: &World, t: Tile) -> (i32, i32) {
    for y in 0..w.map.h as i32 {
        for x in 0..w.map.w as i32 {
            if w.map.tile(x, y) == t {
                return (x, y);
            }
        }
    }
    panic!("no such tile")
}

#[test]
fn chests_pay_gold_once() {
    let c = content();
    let mut w = World::new(&c);
    w.chests.push(capitol_dungeon::world::Chest { tx: 3, ty: 3, opened: false });
    let ci = w.chests.len() - 1;
    let gold = w.player.gold;
    match w.interact(&c, (0, 0), (0, 0), None, Some(ci), None) {
        Interaction::ChestLoot { text } => assert!(text.contains("gold for the strike fund")),
        _ => panic!("expected loot"),
    }
    let got = w.player.gold - gold;
    assert!((12..24).contains(&got));
    assert!(w.chests[ci].opened);
    assert_eq!(w.stat("chests"), 1);
}

#[test]
fn graffiti_counts_each_line_once() {
    let c = content();
    let mut w = World::new(&c);
    if w.map.graffiti.is_empty() {
        return;
    }
    let idx = w.map.graffiti[0].text_idx;
    for _ in 0..2 {
        match w.interact(&c, (0, 0), (0, 0), None, None, Some(0)) {
            Interaction::Dialog { who, text } => {
                assert_eq!(who, "Graffiti on the wall");
                assert_eq!(text, c.graffiti[idx]);
            }
            _ => panic!("expected graffiti"),
        }
    }
    assert_eq!(w.stat("graffiti"), 1);
    assert_eq!(w.stat(&format!("graffiti_seen_{}", idx)), 1);
}

#[test]
fn hints_follow_interaction_order() {
    let c = content();
    let w = World::new(&c);
    let stairs = find(&w, Tile::Stairs);
    let fire = find(&w, Tile::Campfire);
    assert_eq!(interaction_hint(&w, &c, stairs, stairs, None, false, false).as_deref(), Some("[E] Descend deeper"));
    assert_eq!(
        interaction_hint(&w, &c, (0, 0), fire, None, true, true).as_deref(),
        Some("[E] Rest by the fire (free, always)")
    );
    assert_eq!(interaction_hint(&w, &c, (0, 0), (0, 0), Some(0), true, false).as_deref(), Some("[E] Talk to Medic Rosa"));
    assert_eq!(
        interaction_hint(&w, &c, (0, 0), (0, 0), Some(1), false, false).as_deref(),
        Some("[E] Browse the co-op (Quartermaster)")
    );
    assert_eq!(interaction_hint(&w, &c, (0, 0), (0, 0), None, true, true).as_deref(), Some("[E] Open chest"));
    assert_eq!(
        interaction_hint(&w, &c, (0, 0), (0, 0), None, false, true).as_deref(),
        Some("[E] Read the writing on the wall")
    );
    assert_eq!(interaction_hint(&w, &c, (0, 0), (0, 0), None, false, false), None);
}

#[test]
fn equipping_swaps_gear_through_the_pack() {
    let c = content();
    let mut w = World::new(&c);
    w.use_or_equip(&c, 1);
    assert_eq!(w.player.equipment, vec![("weapon".to_string(), "rusty_shiv".to_string())]);
    assert_eq!(pack(&w.player), vec![("bread".to_string(), 2)]);
    assert_eq!(w.stat("equips"), 1);
    assert_eq!(last_toast(&w), "Equipped: Rusty Shiv");
    w.player.add_item("sword");
    w.use_or_equip(&c, 1);
    assert_eq!(w.player.equipment, vec![("weapon".to_string(), "sword".to_string())]);
    assert_eq!(pack(&w.player), vec![("bread".to_string(), 2), ("rusty_shiv".to_string(), 1)]);
}

#[test]
fn potions_heal_up_to_the_cap() {
    let c = content();
    let mut w = World::new(&c);
    w.player.hp = 35;
    w.use_or_equip(&c, 0);
    assert_eq!(w.player.hp, 40);
    assert_eq!(pack(&w.player)[0], ("bread".to_string(), 1));
    assert_eq!(last_toast(&w), "Used: Bread");
    w.use_or_equip(&c, 7);
    assert_eq!(w.player.hp, 40);
}

#[test]
fn unequipping_returns_gear_to_the_pack() {
    let c = content();
    let mut w = World::new(&c);
    w.use_or_equip(&c, 1);
    w.unequip(&c, 0);
    assert!(w.player.equipment.is_empty());
    assert_eq!(pack(&w.player), vec![("bread".to_string(), 2), ("rusty_shiv".to_string(), 1)]);
    assert_eq!(last_toast(&w), "Unequipped: Rusty Shiv");
    w.unequip(&c, 99);
    assert_eq!(last_toast(&w), "Unequipped: Rusty Shiv");
}

#[test]
fn unequipping_into_a_full_pack_keeps_the_gear_on() {
    let c = content();
    let mut w = World::new(&c);
    w.player.equipment.push(("ring".to_string(), "ring".to_string()));
    for i in 0..INV_CAP {
        w.player.add_item(&format!("junk{}", i));
    }
    w.unequip(&c, 6);
    assert_eq!(w.player.equipment.len(), 1);
    assert_eq!(last_toast(&w), "Backpack is full.");
}

#[test]
fn buying_pays_the_price() {
    let c = content();
    let mut w = World::new(&c);
    w.shop_stock = vec!["helm".to_string(), "sword".to_string(), "nothing".to_string()];
    w.buy(&c, 0);
    assert_eq!(w.player.gold, 14);
    assert_eq!(pack(&w.player).last(), Some(&("helm".to_string(), 1)));
    assert_eq!(w.stat("buys"), 1);
    assert_eq!(last_toast(&w), "Bought Hard Hat — receipt goes to the clinic fund.");
    w.buy(&c, 1);
    assert_eq!(w.player.gold, 14);
    assert_eq!(last_toast(&w), "Not enough gold. The co-op can't run on vibes alone.");
    let n = w.toasts.len();
    w.buy(&c, 2);
    assert_eq!(w.toasts.len(), n);
}

#[test]
fn buying_into_a_full_pack_is_refused() {
    let c = content();
    let mut w = World::new(&c);
    for i in 0..INV_CAP {
        w.player.add_item(&format!("junk{}", i));
    }
    w.shop_stock = vec!["helm".to_string()];
    w.buy(&c, 0);
    assert_eq!(w.player.gold, 25);
    assert_eq!(last_toast(&w), "Backpack is full.");
    assert_eq!(w.stat("buys"), 0);
}

#[test]
fn selling_pays_half_rounded_toward_zero() {
    let c = content();
    let mut w = World::new(&c);
    w.sell(&c, 1);
    assert_eq!(w.player.gold, 28);
    assert_eq!(last_toast(&w), "Sold Rusty Shiv for 3 gold.");
    w.player.add_item("ring");
    w.sell(&c, 1);
    assert_eq!(w.player.gold, 27);
    assert_eq!(last_toast(&w), "Sold Union Ring for -1 gold.");
    w.player.inventory.push(ItemStack { id: "mystery".to_string(), qty: 1 });
    w.sell(&c, 1);
    assert_eq!(w.player.gold, 27);
}

#[test]
fn dropping_names_the_item() {
    let c = content();
    let mut w = World::new(&c);
    w.player.inventory.push(ItemStack { id: "mystery".to_string(), qty: 1 });
    w.drop_item(&c, 2);
    assert_eq!(last_toast(&w), "Dropped: mystery (a comrade will find it)");
    w.drop_item(&c, 0);
    assert_eq!(last_toast(&w), "Dropped: Bread (a comrade will find it)");
    assert_eq!(pack(&w.player), vec![("bread".to_string(), 1), ("rusty_shiv".to_string(), 1)]);
}

#[test]
fn picking_up_fills_the_pack() {
    let c = content();
    let mut w = World::new(&c);
    assert!(w.pick_up(&c, "helm"));
    assert_eq!(w.events.last(), Some(&GameEvent::Pickup));
    assert_eq!(last_toast(&w), "Picked up: Hard Hat");
    for i in 0..INV_CAP {
        w.player.add_item(&format!("junk{}", i));
    }
    let n = w.events.len();
    assert!(!w.pick_up(&c, "sword"));
    assert_eq!(w.events.len(), n);
}

#[test]
fn level_ups_spend_xp_and_grow() {
    let c = content();
    let mut w = World::new(&c);
    w.player.xp = 24 + 67 + 10;
    w.player.hp = 1;
    w.apply_level_ups(&c);
    assert_eq!(w.player.level, 3);
    assert_eq!(w.player.xp, 10);
    assert_eq!((w.player.base_maxhp, w.player.base_maxmp, w.player.base_atk, w.player.base_def), (56, 28, 5, 1));
    assert_eq!((w.player.hp, w.player.mp), (56, 28));
    assert_eq!(w.events.iter().filter(|e| **e == GameEvent::LevelUp).count(), 2);
    assert_eq!(w.stat("level"), 3);
    assert!(w.unlocked.contains(&"level3".to_string()));
    let msgs: Vec<String> = w.toasts.iter().map(|t| t.0.clone()).collect();
    assert_eq!(
        msgs,
        vec![
            "New spell: Mutual Aid — Mutual Aid desc".to_string(),
            "Level 3! The movement grows stronger.".to_string(),
            "Achievement: Organized — Reach level 3".to_string(),
            "New spell: Strike — Strike desc".to_string(),
        ]
    );
}

#[test]
fn level_ups_need_enough_xp() {
    let c = content();
    let mut w = World::new(&c);
    w.player.xp = 23;
    w.player.hp = 7;
    w.apply_level_ups(&c);
    assert_eq!((w.player.level, w.player.xp, w.player.hp), (1, 23, 7));
    assert!(w.toasts.is_empty());
}

#[test]
fn hit_damage_is_at_least_one() {
    assert_eq!(hit_damage(10, 3, 2), 9);
    assert_eq!(hit_damage(1, 30, 0), 1);
    assert_eq!(hit_damage(i32::MAX, 0, 0), i32::MAX);
}

#[test]
fn rolled_hits_stay_in_range() {
    for _ in 0..200 {
        let d = strike(10, 4, 3);
        assert!((6..=8).contains(&d));
        let (s, crit) = swing(10, 4);
        if crit {
            assert!([12, 14, 16].contains(&s));
        } else {
            assert!((6..=8).contains(&s));
        }
        let b = bite(5, -3);
        assert!((6..=7).contains(&b));
    }
}

#[test]
fn taking_hits_hurts() {
    let c = content();
    let mut w = World::new(&c);
    w.take_hits(0);
    assert!(w.events.is_empty());
    w.take_hits(15);
    assert_eq!(w.player.hp, 25);
    assert_eq!(w.events, vec![GameEvent::Hurt]);
}

#[test]
fn kills_pay_and_count() {
    let c = content();
    let mut w = World::new(&c);
    let (gold, loot) = w.reward_kill(&c, 0);
    assert_eq!(gold, 2);
    assert_eq!(loot, vec!["bread".to_string()]);
    assert_eq!(w.player.gold, 27);
    assert_eq!(w.player.xp, 5);
    assert_eq!(w.events, vec![GameEvent::Kill]);
    assert_eq!(w.stat("kills"), 1);
    let (gold, loot) = w.reward_kill(&c, 1);
    assert!((50..=60).contains(&gold));
    assert!(loot.is_empty());
    assert_eq!(w.stat("bosses"), 1);
    assert_eq!(last_toast(&w), "Vulture Capitalist liquidated. The dungeon breathes easier.");
}

#[test]
fn a_fallen_fighter_is_mourned() {
    let c = content();
    let mut w = World::new(&c);
    w.fighter_fell(&c, 0);
    assert_eq!(last_toast(&w), "Medic Rosa has fallen. The commune mourns — and remembers.");
}

#[test]
fn casting_checks_mp_and_targets() {
    let c = content();
    let mut w = World::new(&c);
    assert_eq!(w.cast_spell(&c, 0, false), None);
    assert_eq!(last_toast(&w), "No exploiter in range.");
    assert_eq!(w.player.mp, 20);
    assert_eq!(w.cast_spell(&c, 0, true), Some(0));
    assert_eq!(w.player.mp, 15);
    assert_eq!(w.events, vec![GameEvent::Cast]);
    assert_eq!(w.cast_spell(&c, 1, true), None);
    w.player.mp = 2;
    assert_eq!(w.cast_spell(&c, 0, true), None);
    assert_eq!(last_toast(&w), "Not enough MP for Spark.");
}

#[test]
fn healing_spells_cap_at_max_hp() {
    let c = content();
    let mut w = World::new(&c);
    w.player.level = 2;
    w.player.hp = 30;
    assert_eq!(w.cast_spell(&c, 1, false), Some(1));
    assert_eq!(w.player.hp, 40);
    assert_eq!(w.player.mp, 14);
}

fn custom(rows: &[&str]) -> CustomLevel {
    CustomLevel { name: "t".to_string(), rows: rows.iter().map(|r| r.to_string()).collect() }
}

#[test]
fn shouts_and_banter_come_from_the_lines() {
    assert_eq!(shout(&Vec::new()), None);
    assert_eq!(shout(&vec!["Pay up!".to_string()]), Some("Pay up!".to_string()));
    assert_eq!(muse(&Vec::new()), None);
    for _ in 0..20 {
        let m = muse(&vec!["Hmm.".to_string()]);
        assert!(m.is_none() || m == Some("Hmm.".to_string()));
    }
    let mut c = content();
    assert_eq!(banter_pair(&c), None);
    c.banter.push(BanterDef { a: "Strike?".to_string(), b: "Strike!".to_string() });
    assert_eq!(banter_pair(&c), Some(("Strike?".to_string(), "Strike!".to_string())));
}

#[test]
fn reviving_keeps_the_profile_and_starts_over() {
    let c = content();
    let mut w = World::new(&c);
    w.add_stat("kills", 3, &c);
    w.player.gold = 999;
    w.descend(&c, None);
    let unlocked = w.unlocked.clone();
    let w = w.revive(&c);
    assert_eq!(w.depth, 1);
    assert_eq!(w.player.gold, 25);
    assert_eq!(w.player.hp, 40);
    assert_eq!(w.stat("kills"), 3);
    assert_eq!(w.unlocked, unlocked);
    assert_eq!(w.toasts, vec![("Back on your feet. The commons remembers.".to_string(), 4000)]);
    assert!(w.events.is_empty());
}

#[test]
fn playing_a_custom_level_uses_its_layout() {
    let c = content();
    let w = World::play_custom(&c, &custom(&["#####", "#@.c#", "#..>#", "#####"]), true);
    assert_eq!((w.map.w, w.map.h), (5, 4));
    assert_eq!(w.map.tile(3, 1), Tile::Campfire);
    assert_eq!(w.depth, 1);
    assert!(w.stats.is_empty() && w.unlocked.is_empty());
    assert!(w.campfire_near((2, 2)));
    assert!(!w.campfire_near((1, 2)));
    assert!(w.map.area_free(1, 3, 1, 2));
    assert!(!w.map.area_free(0, 1, 1, 1));
    let g = World::play_custom(&c, &custom(&["##", "##"]), false);
    assert_eq!((g.map.w, g.map.h), (MAP_W, MAP_H));
}

#[test]
fn vitals_clamp_and_mana_trickles() {
    let c = content();
    let mut w = World::new(&c);
    w.player.hp = 500;
    w.player.mp = 7;
    w.clamp_vitals(&c);
    assert_eq!((w.player.hp, w.player.mp), (40, 7));
    w.trickle_mp(&c);
    assert_eq!(w.player.mp, 8);
    w.player.mp = 20;
    w.trickle_mp(&c);
    assert_eq!(w.player.mp, 20);
}

#[test]
fn checking_achievements_unlocks_once() {
    let c = content();
    let mut w = World::new(&c);
    w.stats.push(("level".to_string(), 3));
    w.check_achievements(&c);
    assert_eq!(w.unlocked, vec!["level3".to_string()]);
    assert_eq!(w.toasts.len(), 1);
    w.check_achievements(&c);
    assert_eq!(w.unlocked.len(), 1);
    assert_eq!(w.toasts.len(), 1);
}

#[test]
fn content_filters_by_tier() {
    let c = content();
    assert_eq!(c.mobs_of_tier(1), vec![0, 1]);
    assert!(c.mobs_of_tier(2).is_empty());
    assert_eq!(c.items_up_to_tier(1), vec![0, 1, 2, 3]);
    assert_eq!(c.items_up_to_tier(9), vec![0, 1, 2, 3, 4]);
}

#[test]
fn a_save_restores_the_run() {
    let c = content();
    let mut w = World::new(&c);
    w.add_stat("kills", 2, &c);
    w.player.gold = 77;
    w.player.level = 4;
    w.player.xp = 12;
    w.player.hp = 30;
    w.player.equipment.push(("weapon".to_string(), "sword".to_string()));
    w.depth = 3;
    let sd = snapshot(&w, true);
    let mut back = World::new(&c);
    assert!(apply(&mut back, &c, &sd));
    assert_eq!(back.depth, 3);
    assert_eq!(back.player.gold, 77);
    assert_eq!(back.player.level, 4);
    assert_eq!(back.player.xp, 12);
    assert_eq!(back.player.hp, 30);
    assert_eq!(pack(&back.player), pack(&w.player));
    assert_eq!(back.player.equipment, w.player.equipment);
    assert_eq!(back.stat("kills"), 2);
    assert_eq!(back.unlocked, w.unlocked);
}

#[test]
fn a_profile_only_save_restores_no_run() {
    let c = content();
    let mut w = World::new(&c);
    w.add_stat("kills", 1, &c);
    let sd = snapshot(&w, false);
    assert!(sd.run.is_none());
    let mut back = World::new(&c);
    back.player.gold = 5;
    assert!(!apply(&mut back, &c, &sd));
    assert_eq!(back.stat("kills"), 1);
    assert_eq!(back.unlocked, vec!["first_blood".to_string()]);
    assert_eq!(back.player.gold, 5);
}

#[test]
fn a_save_with_bad_numbers_is_repaired() {
    let c = content();
    let mut w = World::new(&c);
    w.player.hp = -4;
    w.player.level = 0;
    w.player.gold = -10;
    w.player.base_spd = 3;
    w.depth = 0;
    w.unlocked = vec!["a".to_string(), "a".to_string()];
    let sd = snapshot(&w, true);
    let mut back = World::new(&c);
    assert!(apply(&mut back, &c, &sd));
    assert_eq!(back.player.hp, 1);
    assert_eq!(back.player.level, 1);
    assert_eq!(back.player.gold, 0);
    assert_eq!(back.player.base_spd, 92);
    assert_eq!(back.depth, 1);
    assert_eq!(back.unlocked, vec!["a".to_string()]);
}

#[test]
fn musing_needs_a_line_and_a_low_roll() {
    let lines = vec!["Hmm.".to_string()];
    assert_eq!(muse_on_roll(&lines, 0), Some("Hmm.".to_string()));
    assert_eq!(muse_on_roll(&lines, 39), Some("Hmm.".to_string()));
    assert_eq!(muse_on_roll(&lines, 40), None);
    assert_eq!(muse_on_roll(&lines, 99), None);
    assert_eq!(muse_on_roll(&Vec::new(), 0), None);
}

#[test]
fn an_open_chest_is_not_looted_again() {
    let c = content();
    let mut w = World::new(&c);
    w.chests.push(capitol_dungeon::world::Chest { tx: 3, ty: 3, opened: false });
    let ci = w.chests.len() - 1;
    assert!(matches!(w.interact(&c, (0, 0), (0, 0), None, Some(ci), None), Interaction::ChestLoot { .. }));
    let gold = w.player.gold;
    assert!(matches!(w.interact(&c, (0, 0), (0, 0), None, Some(ci), None), Interaction::Nothing));
    assert_eq!(w.player.gold, gold);
    assert_eq!(w.stat("chests"), 1);
}

#[test]
fn chest_draws_decide_the_loot() {
    let c = content();
    let mut w = World::new(&c);
    w.depth = 2;
    w.chests.push(capitol_dungeon::world::Chest { tx: 3, ty: 3, opened: false });
    w.chests.push(capitol_dungeon::world::Chest { tx: 5, ty: 3, opened: false });
    let gold = w.player.gold;
    match w.open_chest_with(0, &c, 10, 54, 2) {
        Interaction::ChestLoot { text } => assert_eq!(text, "+18 gold for the strike fund, and: Strike Sword"),
        _ => panic!("expected loot"),
    }
    assert_eq!(w.player.gold, gold + 18);
    assert!(w.player.inventory.iter().any(|s| s.id == "sword"));
    match w.open_chest_with(1, &c, 8, 55, 0) {
        Interaction::ChestLoot { text } => assert_eq!(text, "+16 gold for the strike fund"),
        _ => panic!("expected loot"),
    }
    assert_eq!(w.stat("chests"), 2);
}

#[test]
fn swings_follow_their_rolls() {
    assert_eq!(swing_on_rolls(10, 4, 11, 2), (16, true));
    assert_eq!(swing_on_rolls(10, 4, 12, 2), (8, false));
    assert_eq!(swing_on_rolls(1, 9, 99, 0), (1, false));
}

#[test]
fn the_coop_stocks_the_first_distinct_picks() {
    let c = content();
    let s = shop_stock_for(&c, 1, &vec![2, 2, 0, 3, 0, 1]);
    assert_eq!(s, vec!["sword".to_string(), "bread".to_string(), "helm".to_string(), "rusty_shiv".to_string()]);
    assert!(shop_stock_for(&c, 1, &Vec::new()).is_empty());
    let w = World::new(&c);
    assert!(!w.shop_stock.is_empty());
}

#[test]
fn the_cast_fills_the_spots() {
    let c = content();
    let w = World::play_custom(&c, &custom(&["#####", "#1n2#", "#n..#", "#####"]), true);
    let plan = spawn_plan(&c, &w.map);
    assert_eq!(plan.mobs.len(), 1);
    assert_eq!((plan.mobs[0].0, plan.mobs[0].1), (1, 1));
    assert!(plan.mobs[0].2 < 2);
    assert_eq!(plan.npcs, vec![(1, 2, 1), (2, 1, 0)]);
    assert!(plan.fighters.is_empty());
}

#[test]
fn a_kill_with_a_negative_minimum_pays_within_range() {
    let mut c = content();
    c.mobs.push(mob("Debt Mite", -5, 5, 1, false, Vec::new()));
    let k = c.mobs.len() - 1;
    let mut w = World::new(&c);
    for _ in 0..200 {
        let before = w.player.gold;
        let (gold, _) = w.reward_kill(&c, k);
        assert!((-5..=5).contains(&gold));
        assert_eq!(w.player.gold, before + gold);
    }
}

#[test]
fn a_frame_never_lowers_the_profile() {
    let c = content();
    let mut w = World::new(&c);
    w.add_stat("kills", 1, &c);
    let kills = w.stat("kills");
    w.player.gold = 500;
    w.bump_stat_max("gold", w.player.gold, &c);
    assert!(w.stat("gold") >= w.player.gold);
    w.player.gold = 10;
    w.bump_stat_max("gold", w.player.gold, &c);
    assert_eq!(w.stat("gold"), 500);
    assert_eq!(w.stat("kills"), kills);
    assert_eq!(w.unlocked, vec!["first_blood".to_string()]);
}
