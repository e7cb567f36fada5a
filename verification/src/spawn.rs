//! Who stands where when a level is entered: a mob type for each mob spot,
//! the co-op's shopkeeper and civilians on the NPC spots, and a few rebel
//! fighters in the rooms. The application places them in pixels and gives
//! them their timers.

use vstd::prelude::*;
use crate::content::{Content, MobDef, NpcDef, indices_where, as_ints, lemma_indices_where_bound};
use crate::dungeon::DungeonMap;
use crate::rng::gen_range;

verus! {

/// The cast of a level.
pub struct SpawnPlan {
    /// A mob per peopled mob spot, in the order of the spots: (x, y, mob type).
    pub mobs: Vec<(usize, usize, usize)>,
    /// The NPCs: the shopkeeper first when there is one, then the civilians,
    /// each as (x, y, NPC type).
    pub npcs: Vec<(usize, usize, usize)>,
    /// The wandering fighters: (room, NPC type).
    pub fighters: Vec<(usize, usize)>,
}

/// The mob types of a tier.
pub open spec fn tier_mobs(c: Content, tier: i32) -> Seq<int> {
    indices_where(c.mobs@.map_values(|m: MobDef| m.tier == tier))
}

/// The NPC types that are neither shopkeepers nor fighters.
pub open spec fn civilian_pool(c: Content) -> Seq<int> {
    indices_where(c.npcs@.map_values(|n: NpcDef| !n.shopkeeper && !n.fighter))
}

/// The fighter NPC types.
pub open spec fn fighter_pool(c: Content) -> Seq<int> {
    indices_where(c.npcs@.map_values(|n: NpcDef| n.fighter))
}

/// The mobs of the first spots of `spots`: a spot whose tier has mob types
/// gets one of them; any other spot stays empty.
pub open spec fn mobs_planned(c: Content, spots: Seq<(usize, usize, i32)>, plan: Seq<(usize, usize, usize)>) -> bool
    decreases spots.len(),
{
    if spots.len() == 0 {
        plan.len() == 0
    } else {
        let s = spots.last();
        if tier_mobs(c, s.2).len() > 0 {
            &&& plan.len() > 0
            &&& plan.last().0 == s.0 && plan.last().1 == s.1
            &&& tier_mobs(c, s.2).contains(plan.last().2 as int)
            &&& mobs_planned(c, spots.drop_last(), plan.drop_last())
        } else {
            mobs_planned(c, spots.drop_last(), plan)
        }
    }
}

/// Whether NPC type `k` is the first shopkeeper of the content.
pub open spec fn first_shopkeeper(c: Content, k: int) -> bool {
    &&& 0 <= k < c.npcs@.len()
    &&& c.npcs@[k].shopkeeper
    &&& forall|j: int| 0 <= j < k ==> !(#[trigger] c.npcs@[j]).shopkeeper
}

/// Whether the content has a shopkeeper.
pub open spec fn has_shopkeeper(c: Content) -> bool {
    exists|j: int| 0 <= j < c.npcs@.len() && (#[trigger] c.npcs@[j]).shopkeeper
}

/// The NPCs of a level: on a shop level with a shopkeeper and a spot, the
/// first shopkeeper on the last spot; then, when there are civilians, one
/// on each remaining spot in order.
pub open spec fn npcs_planned(c: Content, spots: Seq<(usize, usize)>, has_shop: bool, plan: Seq<(usize, usize, usize)>) -> bool {
    let shop = has_shop && has_shopkeeper(c) && spots.len() > 0;
    let rest = if shop { spots.drop_last() } else { spots };
    let off: int = if shop { 1 } else { 0 };
    &&& plan.len() == off + (if civilian_pool(c).len() > 0 { rest.len() as int } else { 0 })
    &&& shop ==> plan[0].0 == spots.last().0 && plan[0].1 == spots.last().1 && first_shopkeeper(c, plan[0].2 as int)
    &&& forall|k: int| 0 <= k < plan.len() - off ==> {
        &&& (#[trigger] plan[off + k]).0 == rest[k].0
        &&& plan[off + k].1 == rest[k].1
        &&& civilian_pool(c).contains(plan[off + k].2 as int)
    }
}

/// The fighters of a level: when there are fighter types and more than two
/// rooms, one to three of them, each in a room other than the safe one;
/// otherwise none.
pub open spec fn fighters_planned(c: Content, rooms: int, plan: Seq<(usize, usize)>) -> bool {
    if fighter_pool(c).len() > 0 && rooms > 2 {
        &&& 1 <= plan.len() <= 3
        &&& forall|k: int| 0 <= k < plan.len() ==> 1 <= (#[trigger] plan[k]).0 < rooms && fighter_pool(c).contains(plan[k].1 as int)
    } else {
        plan.len() == 0
    }
}

/// Draws the cast of a level (see `mobs_planned`, `npcs_planned` and
/// `fighters_planned`); which types come out is up to chance.
pub fn spawn_plan(content: &Content, map: &DungeonMap) -> (p: SpawnPlan)
    requires
        content.mobs@.len() <= i32::MAX,
        content.npcs@.len() <= i32::MAX,
        map.rooms@.len() <= i32::MAX,
    ensures
        mobs_planned(*content, map.mob_spots@, p.mobs@),
        npcs_planned(*content, map.npc_spots@, map.has_shop, p.npcs@),
        fighters_planned(*content, map.rooms@.len() as int, p.fighters@),
{
    let mut mobs: Vec<(usize, usize, usize)> = Vec::new();
    let mut i: usize = 0;
    while i < map.mob_spots.len()
        invariant
            i <= map.mob_spots@.len(),
            content.mobs@.len() <= i32::MAX,
            mobs_planned(*content, map.mob_spots@.take(i as int), mobs@),
        decreases map.mob_spots@.len() - i,
    {
        let (tx, ty, tier) = map.mob_spots[i];
        let pool = content.mobs_of_tier(tier);
        proof {
            lemma_indices_where_bound(content.mobs@.map_values(|m: MobDef| m.tier == tier));
            assert(map.mob_spots@.take(i + 1).drop_last() =~= map.mob_spots@.take(i as int));
            assert(map.mob_spots@.take(i + 1).last() == map.mob_spots@[i as int]);
        }
        if pool.len() > 0 {
            let pick = gen_range(0, pool.len() as i32) as usize;
            let def = pool[pick];
            let ghost before = mobs@;
            mobs.push((tx, ty, def));
            proof {
                assert(as_ints(pool@)[pick as int] == def as int);
                assert(tier_mobs(*content, tier)[pick as int] == def as int);
                assert(mobs@.drop_last() =~= before);
            }
        }
        i = i + 1;
    }
    assert(map.mob_spots@.take(i as int) =~= map.mob_spots@);

    let mut npcs: Vec<(usize, usize, usize)> = Vec::new();
    let spots = &map.npc_spots;
    let mut n: usize = spots.len();
    let ghost mut shop = false;
    if map.has_shop {
        if let Some(sk) = content.shopkeeper() {
            if n > 0 {
                n = n - 1;
                npcs.push((spots[n].0, spots[n].1, sk));
                proof { shop = true; }
            }
        } else {
            assert(!has_shopkeeper(*content));
        }
    }
    proof {
        if shop {
            assert(has_shopkeeper(*content));
        }
    }
    let ghost rest = if shop { spots@.drop_last() } else { spots@ };
    let ghost off: int = if shop { 1 } else { 0 };
    assert(rest.len() == n);
    let civilians = content.civilians();
    proof { lemma_indices_where_bound(content.npcs@.map_values(|d: NpcDef| !d.shopkeeper && !d.fighter)); }
    if civilians.len() > 0 {
        let mut k: usize = 0;
        while k < n
            invariant
                k <= n,
                n == rest.len(),
                rest == (if shop { spots@.drop_last() } else { spots@ }),
                off == (if shop { 1int } else { 0 }),
                n <= spots@.len(),
                npcs@.len() == off + k,
                as_ints(civilians@) == civilian_pool(*content),
                civilians@.len() > 0,
                content.npcs@.len() <= i32::MAX,
                civilians@.len() <= content.npcs@.len(),
                shop ==> npcs@[0].0 == spots@.last().0 && npcs@[0].1 == spots@.last().1
                    && first_shopkeeper(*content, npcs@[0].2 as int),
                forall|j: int| 0 <= j < k ==> {
                    &&& (#[trigger] npcs@[off + j]).0 == rest[j].0
                    &&& npcs@[off + j].1 == rest[j].1
                    &&& civilian_pool(*content).contains(npcs@[off + j].2 as int)
                },
            decreases n - k,
        {
            let pick = gen_range(0, civilians.len() as i32) as usize;
            let def = civilians[pick];
            assert(as_ints(civilians@)[pick as int] == def as int);
            assert(rest[k as int] == spots@[k as int]);
            npcs.push((spots[k].0, spots[k].1, def));
            k = k + 1;
        }
    }
    assert(npcs_planned(*content, map.npc_spots@, map.has_shop, npcs@));

    let mut fighters: Vec<(usize, usize)> = Vec::new();
    let fighter_defs = content.fighters();
    proof { lemma_indices_where_bound(content.npcs@.map_values(|d: NpcDef| d.fighter)); }
    if fighter_defs.len() > 0 && map.rooms.len() > 2 {
        let count = gen_range(1, 4);
        let mut k: i32 = 0;
        while k < count
            invariant
                1 <= count < 4,
                0 <= k <= count,
                fighters@.len() == k,
                map.rooms@.len() > 2,
                map.rooms@.len() <= i32::MAX,
                as_ints(fighter_defs@) == fighter_pool(*content),
                fighter_defs@.len() > 0,
                fighter_defs@.len() <= content.npcs@.len(),
                content.npcs@.len() <= i32::MAX,
                forall|j: int| 0 <= j < fighters@.len() ==> 1 <= (#[trigger] fighters@[j]).0 < map.rooms@.len()
                    && fighter_pool(*content).contains(fighters@[j].1 as int),
            decreases count - k,
        {
            let ri = gen_range(0, map.rooms.len() as i32 - 1) as usize + 1;
            let pick = gen_range(0, fighter_defs.len() as i32) as usize;
            let def = fighter_defs[pick];
            assert(as_ints(fighter_defs@)[pick as int] == def as int);
            fighters.push((ri, def));
            k = k + 1;
        }
    }
    SpawnPlan { mobs, npcs, fighters }
}

} // verus!
