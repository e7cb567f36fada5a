//! What a save holds and how a world is rebuilt from one: the profile
//! always, and the run when there is one, resumed at the start of its
//! depth with the gear intact. Encoding to JSON and the storage itself
//! belong to the application.

use vstd::prelude::*;
use crate::content::Content;
use crate::dungeon::generated;
use crate::world::{
    World, ItemStack, stacks, gear, wear, names, stat_pairs, closed_chests, shop_stocked, loot_tier, wear_exec,
};

verus! {

/// The run part of a save. `inventory` and `equipment` are the older
/// format, still read so old saves carry over; `inventory2` and
/// `equipment2` carry an item's prefix and suffix besides its id.
pub struct RunSave {
    pub depth: i32,
    pub hp: i32,
    pub mp: i32,
    pub base_maxhp: i32,
    pub base_maxmp: i32,
    pub base_atk: i32,
    pub base_def: i32,
    pub base_spd: i32,
    pub xp: i64,
    pub level: i32,
    pub gold: i64,
    pub inventory: Vec<(String, i32)>,
    pub equipment: Vec<(String, String)>,
    pub inventory2: Vec<(String, Option<String>, Option<String>, i32)>,
    pub equipment2: Vec<(String, String, Option<String>, Option<String>)>,
}

/// A save: the profile and, optionally, the run.
pub struct SaveData {
    pub stats: Vec<(String, i64)>,
    pub unlocked: Vec<String>,
    pub run: Option<RunSave>,
}

pub open spec fn max_i(a: int, b: int) -> int {
    if a > b { a } else { b }
}

/// The names in order, each kept once (at its first place).
pub open spec fn dedup(s: Seq<Seq<char>>) -> Seq<Seq<char>>
    decreases s.len(),
{
    if s.len() == 0 {
        Seq::empty()
    } else {
        let d = dedup(s.drop_last());
        if d.contains(s.last()) { d } else { d.push(s.last()) }
    }
}

/// Equipment built by putting each (slot, item) on in turn (a later item
/// for a slot replaces an earlier one).
pub open spec fn gear_from(list: Seq<(Seq<char>, Seq<char>)>) -> Seq<(Seq<char>, Seq<char>)>
    decreases list.len(),
{
    if list.len() == 0 {
        Seq::empty()
    } else {
        wear(gear_from(list.drop_last()), list.last().0, list.last().1)
    }
}

pub open spec fn legacy_pack(v: Seq<(String, i32)>) -> Seq<(Seq<char>, int)> {
    v.map_values(|e: (String, i32)| (e.0@, e.1 as int))
}

pub open spec fn pack2(v: Seq<(String, Option<String>, Option<String>, i32)>) -> Seq<(Seq<char>, int)> {
    v.map_values(|e: (String, Option<String>, Option<String>, i32)| (e.0@, e.3 as int))
}

pub open spec fn gear2(v: Seq<(String, String, Option<String>, Option<String>)>) -> Seq<(Seq<char>, Seq<char>)> {
    v.map_values(|e: (String, String, Option<String>, Option<String>)| (e.0@, e.1@))
}

/// Whether a run was saved in the newer format.
pub open spec fn current_format(r: RunSave) -> bool {
    r.inventory2@.len() > 0 || r.equipment2@.len() > 0
}

/// A world rebuilt from save `sd`: the profile restored (each achievement
/// once); with a run, the player's numbers restored within sane floors
/// (at least 1 HP, 10 max HP, 5 max MP, 1 attack, 0 defence, 1st level, and
/// no negative experience or gold; a speed of 10 or less reads as 92), the
/// backpack and gear from the newer format when present, else the older
/// one, and a fresh level at the saved depth (at least 1). Returns whether
/// a run was restored.
pub open spec fn applied(old: World, new: World, content: Content, sd: SaveData, r: bool) -> bool {
    &&& stat_pairs(new.stats@) == stat_pairs(sd.stats@)
    &&& names(new.unlocked@) == dedup(names(sd.unlocked@))
    &&& new.toasts == old.toasts && new.events == old.events
    &&& r == sd.run is Some
    &&& match sd.run {
        None => {
            &&& new.player == old.player && new.map == old.map && new.chests == old.chests
            &&& new.depth == old.depth && new.shop_stock == old.shop_stock
        },
        Some(run) => {
            let p = new.player;
            &&& p.hp == max_i(run.hp as int, 1) && p.mp == run.mp
            &&& p.base_maxhp == max_i(run.base_maxhp as int, 10) && p.base_maxmp == max_i(run.base_maxmp as int, 5)
            &&& p.base_atk == max_i(run.base_atk as int, 1) && p.base_def == max_i(run.base_def as int, 0)
            &&& p.base_spd == (if run.base_spd > 10 { run.base_spd as int } else { 92 })
            &&& p.xp == max_i(run.xp as int, 0) && p.level == max_i(run.level as int, 1)
            &&& p.gold == max_i(run.gold as int, 0)
            &&& stacks(p.inventory@) == (if current_format(run) { pack2(run.inventory2@) } else { legacy_pack(run.inventory@) })
            &&& gear(p.equipment@) == gear_from(if current_format(run) { gear2(run.equipment2@) } else { gear(run.equipment@) })
            &&& new.depth == max_i(run.depth as int, 1)
            &&& generated(new.map, new.depth as int, content.graffiti@.len() as int)
            &&& closed_chests(new.map.chest_spots@, new.chests@)
            &&& shop_stocked(names(new.shop_stock@), content.items@, loot_tier(new.depth as int), new.map.has_shop)
        },
    }
}

/// What `snapshot` writes: the profile, and with `include_run` the run in
/// the newer format (no affixes), the older lists left empty.
pub open spec fn snapshot_of(w: World, include_run: bool, sd: SaveData) -> bool {
    &&& stat_pairs(sd.stats@) == stat_pairs(w.stats@)
    &&& names(sd.unlocked@) == names(w.unlocked@)
    &&& include_run == sd.run is Some
    &&& match sd.run {
        Some(r) => {
            let p = w.player;
            &&& r.depth == w.depth && r.hp == p.hp && r.mp == p.mp
            &&& r.base_maxhp == p.base_maxhp && r.base_maxmp == p.base_maxmp
            &&& r.base_atk == p.base_atk && r.base_def == p.base_def && r.base_spd == p.base_spd
            &&& r.xp == p.xp && r.level == p.level && r.gold == p.gold
            &&& r.inventory@.len() == 0 && r.equipment@.len() == 0
            &&& pack2(r.inventory2@) == stacks(p.inventory@)
            &&& forall|i: int| 0 <= i < r.inventory2@.len() ==> (#[trigger] r.inventory2@[i]).1 is None && r.inventory2@[i].2 is None
            &&& gear2(r.equipment2@) == gear(p.equipment@)
            &&& forall|i: int| 0 <= i < r.equipment2@.len() ==> (#[trigger] r.equipment2@[i]).2 is None && r.equipment2@[i].3 is None
        },
        None => true,
    }
}

fn copy_stats(s: &Vec<(String, i64)>) -> (out: Vec<(String, i64)>)
    ensures
        stat_pairs(out@) == stat_pairs(s@),
{
    let mut out: Vec<(String, i64)> = Vec::new();
    let mut i: usize = 0;
    while i < s.len()
        invariant
            i <= s@.len(),
            stat_pairs(out@) == stat_pairs(s@.take(i as int)),
        decreases s@.len() - i,
    {
        let ghost before = stat_pairs(out@);
        out.push((s[i].0.clone(), s[i].1));
        assert(stat_pairs(out@) =~= before.push((s@[i as int].0@, s@[i as int].1 as int)));
        assert(s@.take(i + 1) =~= s@.take(i as int).push(s@[i as int]));
        assert(stat_pairs(s@.take(i + 1)) =~= stat_pairs(s@.take(i as int)).push((s@[i as int].0@, s@[i as int].1 as int)));
        i = i + 1;
    }
    assert(s@.take(i as int) =~= s@);
    out
}

fn copy_names(s: &Vec<String>) -> (out: Vec<String>)
    ensures
        names(out@) == names(s@),
{
    let mut out: Vec<String> = Vec::new();
    let mut i: usize = 0;
    while i < s.len()
        invariant
            i <= s@.len(),
            names(out@) == names(s@.take(i as int)),
        decreases s@.len() - i,
    {
        let ghost before = names(out@);
        out.push(s[i].clone());
        assert(names(out@) =~= before.push(s@[i as int]@));
        assert(s@.take(i + 1) =~= s@.take(i as int).push(s@[i as int]));
        assert(names(s@.take(i + 1)) =~= names(s@.take(i as int)).push(s@[i as int]@));
        i = i + 1;
    }
    assert(s@.take(i as int) =~= s@);
    out
}

fn contains_name(v: &Vec<String>, x: &String) -> (b: bool)
    ensures
        b == names(v@).contains(x@),
{
    let mut i: usize = 0;
    while i < v.len()
        invariant
            i <= v@.len(),
            forall|j: int| 0 <= j < i ==> names(v@)[j] != x@,
        decreases v@.len() - i,
    {
        if v[i] == *x {
            assert(names(v@)[i as int] == x@);
            return true;
        }
        i = i + 1;
    }
    false
}

fn dedup_names(s: &Vec<String>) -> (out: Vec<String>)
    ensures
        names(out@) == dedup(names(s@)),
{
    let mut out: Vec<String> = Vec::new();
    let mut i: usize = 0;
    while i < s.len()
        invariant
            i <= s@.len(),
            names(out@) == dedup(names(s@.take(i as int))),
        decreases s@.len() - i,
    {
        assert(names(s@.take(i + 1)).drop_last() =~= names(s@.take(i as int)));
        assert(names(s@.take(i + 1)).last() == s@[i as int]@);
        if !contains_name(&out, &s[i]) {
            let ghost before = names(out@);
            out.push(s[i].clone());
            assert(names(out@) =~= before.push(s@[i as int]@));
        }
        i = i + 1;
    }
    assert(s@.take(i as int) =~= s@);
    out
}

fn gear_of(list: &Vec<(String, String)>) -> (eq: Vec<(String, String)>)
    ensures
        gear(eq@) == gear_from(gear(list@)),
{
    let mut eq: Vec<(String, String)> = Vec::new();
    let mut i: usize = 0;
    assert(gear(eq@) =~= gear_from(gear(list@).take(0)));
    while i < list.len()
        invariant
            i <= list@.len(),
            gear(eq@) == gear_from(gear(list@).take(i as int)),
        decreases list@.len() - i,
    {
        assert(gear(list@).take(i + 1).drop_last() =~= gear(list@).take(i as int));
        wear_exec(&mut eq, list[i].0.clone(), list[i].1.clone());
        i = i + 1;
    }
    assert(gear(list@).take(i as int) =~= gear(list@));
    eq
}

fn gear2_of(list: &Vec<(String, String, Option<String>, Option<String>)>) -> (eq: Vec<(String, String)>)
    ensures
        gear(eq@) == gear_from(gear2(list@)),
{
    let mut eq: Vec<(String, String)> = Vec::new();
    let mut i: usize = 0;
    assert(gear(eq@) =~= gear_from(gear2(list@).take(0)));
    while i < list.len()
        invariant
            i <= list@.len(),
            gear(eq@) == gear_from(gear2(list@).take(i as int)),
        decreases list@.len() - i,
    {
        assert(gear2(list@).take(i + 1).drop_last() =~= gear2(list@).take(i as int));
        wear_exec(&mut eq, list[i].0.clone(), list[i].1.clone());
        i = i + 1;
    }
    assert(gear2(list@).take(i as int) =~= gear2(list@));
    eq
}

/// What a world saves (see `snapshot_of`).
pub fn snapshot(world: &World, include_run: bool) -> (sd: SaveData)
    ensures
        snapshot_of(*world, include_run, sd),
{
    let stats = copy_stats(&world.stats);
    let unlocked = copy_names(&world.unlocked);
    if !include_run {
        return SaveData { stats, unlocked, run: None };
    }
    let p = &world.player;
    let mut inventory2: Vec<(String, Option<String>, Option<String>, i32)> = Vec::new();
    let mut i: usize = 0;
    while i < p.inventory.len()
        invariant
            i <= p.inventory@.len(),
            pack2(inventory2@) == stacks(p.inventory@.take(i as int)),
            forall|j: int| 0 <= j < inventory2@.len() ==> (#[trigger] inventory2@[j]).1 is None && inventory2@[j].2 is None,
        decreases p.inventory@.len() - i,
    {
        let ghost before = pack2(inventory2@);
        inventory2.push((p.inventory[i].id.clone(), None, None, p.inventory[i].qty));
        assert(pack2(inventory2@) =~= before.push((p.inventory@[i as int].id@, p.inventory@[i as int].qty as int)));
        assert(p.inventory@.take(i + 1) =~= p.inventory@.take(i as int).push(p.inventory@[i as int]));
        assert(stacks(p.inventory@.take(i + 1)) =~= stacks(p.inventory@.take(i as int)).push(
            (p.inventory@[i as int].id@, p.inventory@[i as int].qty as int)));
        i = i + 1;
    }
    assert(p.inventory@.take(i as int) =~= p.inventory@);
    let mut equipment2: Vec<(String, String, Option<String>, Option<String>)> = Vec::new();
    let mut k: usize = 0;
    while k < p.equipment.len()
        invariant
            k <= p.equipment@.len(),
            gear2(equipment2@) == gear(p.equipment@.take(k as int)),
            forall|j: int| 0 <= j < equipment2@.len() ==> (#[trigger] equipment2@[j]).2 is None && equipment2@[j].3 is None,
        decreases p.equipment@.len() - k,
    {
        let ghost before = gear2(equipment2@);
        equipment2.push((p.equipment[k].0.clone(), p.equipment[k].1.clone(), None, None));
        assert(gear2(equipment2@) =~= before.push((p.equipment@[k as int].0@, p.equipment@[k as int].1@)));
        assert(p.equipment@.take(k + 1) =~= p.equipment@.take(k as int).push(p.equipment@[k as int]));
        assert(gear(p.equipment@.take(k + 1)) =~= gear(p.equipment@.take(k as int)).push(
            (p.equipment@[k as int].0@, p.equipment@[k as int].1@)));
        k = k + 1;
    }
    assert(p.equipment@.take(k as int) =~= p.equipment@);
    let run = RunSave {
        depth: world.depth,
        hp: p.hp,
        mp: p.mp,
        base_maxhp: p.base_maxhp,
        base_maxmp: p.base_maxmp,
        base_atk: p.base_atk,
        base_def: p.base_def,
        base_spd: p.base_spd,
        xp: p.xp,
        level: p.level,
        gold: p.gold,
        inventory: Vec::new(),
        equipment: Vec::new(),
        inventory2,
        equipment2,
    };
    SaveData { stats, unlocked, run: Some(run) }
}

/// Rebuilds a world from a save (see `applied`).
pub fn apply(world: &mut World, content: &Content, sd: &SaveData) -> (restored: bool)
    requires
        content.graffiti@.len() <= i32::MAX,
        content.items@.len() <= i32::MAX,
    ensures
        applied(*old(world), *final(world), *content, *sd, restored),
{
    world.stats = copy_stats(&sd.stats);
    world.unlocked = dedup_names(&sd.unlocked);
    let run = match &sd.run {
        Some(r) => r,
        None => { return false; },
    };
    world.player.hp = if run.hp > 1 { run.hp } else { 1 };
    world.player.mp = run.mp;
    world.player.base_maxhp = if run.base_maxhp > 10 { run.base_maxhp } else { 10 };
    world.player.base_maxmp = if run.base_maxmp > 5 { run.base_maxmp } else { 5 };
    world.player.base_atk = if run.base_atk > 1 { run.base_atk } else { 1 };
    world.player.base_def = if run.base_def > 0 { run.base_def } else { 0 };
    world.player.base_spd = if run.base_spd > 10 { run.base_spd } else { 92 };
    world.player.xp = if run.xp > 0 { run.xp } else { 0 };
    world.player.level = if run.level > 1 { run.level } else { 1 };
    world.player.gold = if run.gold > 0 { run.gold } else { 0 };
    if run.inventory2.len() > 0 || run.equipment2.len() > 0 {
        let mut inv: Vec<ItemStack> = Vec::new();
        let mut i: usize = 0;
        while i < run.inventory2.len()
            invariant
                i <= run.inventory2@.len(),
                stacks(inv@) == pack2(run.inventory2@.take(i as int)),
            decreases run.inventory2@.len() - i,
        {
            let ghost before = stacks(inv@);
            inv.push(ItemStack { id: run.inventory2[i].0.clone(), qty: run.inventory2[i].3 });
            assert(stacks(inv@) =~= before.push((run.inventory2@[i as int].0@, run.inventory2@[i as int].3 as int)));
            assert(run.inventory2@.take(i + 1) =~= run.inventory2@.take(i as int).push(run.inventory2@[i as int]));
            assert(pack2(run.inventory2@.take(i + 1)) =~= pack2(run.inventory2@.take(i as int)).push(
                (run.inventory2@[i as int].0@, run.inventory2@[i as int].3 as int)));
            i = i + 1;
        }
        assert(run.inventory2@.take(i as int) =~= run.inventory2@);
        world.player.inventory = inv;
        world.player.equipment = gear2_of(&run.equipment2);
    } else {
        let mut inv: Vec<ItemStack> = Vec::new();
        let mut i: usize = 0;
        while i < run.inventory.len()
            invariant
                i <= run.inventory@.len(),
                stacks(inv@) == legacy_pack(run.inventory@.take(i as int)),
            decreases run.inventory@.len() - i,
        {
            let ghost before = stacks(inv@);
            inv.push(ItemStack { id: run.inventory[i].0.clone(), qty: run.inventory[i].1 });
            assert(stacks(inv@) =~= before.push((run.inventory@[i as int].0@, run.inventory@[i as int].1 as int)));
            assert(run.inventory@.take(i + 1) =~= run.inventory@.take(i as int).push(run.inventory@[i as int]));
            assert(legacy_pack(run.inventory@.take(i + 1)) =~= legacy_pack(run.inventory@.take(i as int)).push(
                (run.inventory@[i as int].0@, run.inventory@[i as int].1 as int)));
            i = i + 1;
        }
        assert(run.inventory@.take(i as int) =~= run.inventory@);
        world.player.inventory = inv;
        world.player.equipment = gear_of(&run.equipment);
    }
    world.depth = if run.depth > 1 { run.depth } else { 1 };
    world.load_level(content, None);
    true
}

/// No name occurs twice.
pub open spec fn distinct(s: Seq<Seq<char>>) -> bool {
    forall|i: int, j: int| 0 <= i < s.len() && 0 <= j < s.len() && i != j ==> s[i] != s[j]
}

/// Numbers a save keeps as they are (the floors `apply` enforces hold).
pub open spec fn sane(w: World) -> bool {
    let p = w.player;
    &&& p.hp >= 1 && p.base_maxhp >= 10 && p.base_maxmp >= 5 && p.base_atk >= 1 && p.base_def >= 0
    &&& p.base_spd > 10 && p.xp >= 0 && p.level >= 1 && p.gold >= 0 && w.depth >= 1
}

proof fn lemma_dedup_distinct(s: Seq<Seq<char>>)
    requires
        distinct(s),
    ensures
        dedup(s) == s,
    decreases s.len(),
{
    if s.len() > 0 {
        let t = s.drop_last();
        assert(distinct(t)) by {
            assert forall|i: int, j: int| 0 <= i < t.len() && 0 <= j < t.len() && i != j implies t[i] != t[j] by {
                assert(t[i] == s[i] && t[j] == s[j]);
            }
        }
        lemma_dedup_distinct(t);
        if t.contains(s.last()) {
            let k = choose|k: int| 0 <= k < t.len() && t[k] == s.last();
            assert(s[k] == s[s.len() - 1]);
        }
        assert(t.push(s.last()) =~= s);
    }
}

proof fn lemma_gear_from_distinct(g: Seq<(Seq<char>, Seq<char>)>)
    requires
        distinct(crate::world::gear_slots(g)),
    ensures
        gear_from(g) == g,
    decreases g.len(),
{
    if g.len() > 0 {
        let t = g.drop_last();
        let ks = crate::world::gear_slots(t);
        assert(distinct(ks)) by {
            assert forall|i: int, j: int| 0 <= i < ks.len() && 0 <= j < ks.len() && i != j implies ks[i] != ks[j] by {
                assert(ks[i] == crate::world::gear_slots(g)[i] && ks[j] == crate::world::gear_slots(g)[j]);
            }
        }
        lemma_gear_from_distinct(t);
        crate::content::lemma_lookup_range(ks, g.last().0);
        if crate::content::lookup(ks, g.last().0) >= 0 {
            let k = crate::content::lookup(ks, g.last().0);
            assert(crate::world::gear_slots(g)[k] == crate::world::gear_slots(g)[g.len() - 1]);
        }
        assert(t.push((g.last().0, g.last().1)) =~= g);
    }
}

/// Saving a run and loading the save gives the run back: the player's
/// numbers, backpack and gear, the depth and the profile, for a world
/// whose numbers lie within the floors loading enforces, whose achievements
/// are listed once each and whose gear has one item per slot.
pub proof fn lemma_save_round_trip(w: World, sd: SaveData, before: World, after: World, content: Content, r: bool)
    requires
        snapshot_of(w, true, sd),
        applied(before, after, content, sd, r),
        sane(w),
        distinct(names(w.unlocked@)),
        distinct(crate::world::gear_slots(gear(w.player.equipment@))),
    ensures
        r,
        after.player.hp == w.player.hp && after.player.mp == w.player.mp,
        after.player.base_maxhp == w.player.base_maxhp && after.player.base_maxmp == w.player.base_maxmp,
        after.player.base_atk == w.player.base_atk && after.player.base_def == w.player.base_def,
        after.player.base_spd == w.player.base_spd,
        after.player.xp == w.player.xp && after.player.level == w.player.level && after.player.gold == w.player.gold,
        stacks(after.player.inventory@) == stacks(w.player.inventory@),
        gear(after.player.equipment@) == gear(w.player.equipment@),
        after.depth == w.depth,
        stat_pairs(after.stats@) == stat_pairs(w.stats@),
        names(after.unlocked@) == names(w.unlocked@),
{
    lemma_dedup_distinct(names(w.unlocked@));
    lemma_gear_from_distinct(gear(w.player.equipment@));
    let run = sd.run->0;
    if run.inventory2@.len() == 0 && run.equipment2@.len() == 0 {
        assert(stacks(w.player.inventory@) =~= Seq::<(Seq<char>, int)>::empty());
        assert(gear(w.player.equipment@) =~= Seq::<(Seq<char>, Seq<char>)>::empty());
        assert(legacy_pack(run.inventory@) =~= Seq::<(Seq<char>, int)>::empty());
        assert(gear(run.equipment@) =~= Seq::<(Seq<char>, Seq<char>)>::empty());
    }
}

} // verus!
