//! Game content definitions (mobs, items, NPCs, spells, achievements, ...)
//! and the lookups the rules make into them. Loading and parsing the JSON
//! files is the application's job; it hands the library these values.

use vstd::prelude::*;

verus! {

/// An enemy type. `speed` is in hundredths of a pixel per second.
pub struct MobDef {
    pub id: String,
    pub name: String,
    pub hp: i32,
    pub atk: i32,
    pub def: i32,
    pub speed: i32,
    pub xp: i32,
    pub gold_min: i32,
    pub gold_max: i32,
    pub tier: i32,
    pub boss: bool,
    pub lines: Vec<String>,
    pub drops: Vec<DropDef>,
    pub palette: Vec<(String, String)>,
    pub sprite: Vec<String>,
}

/// A possible drop; `chance` is in parts per million.
pub struct DropDef {
    pub item: String,
    pub chance: u32,
}

/// Gear or a consumable.
pub struct ItemDef {
    pub id: String,
    pub name: String,
    pub desc: String,
    /// weapon|offhand|head|chest|legs|boots|ring|potion
    pub kind: String,
    pub atk: i32,
    pub def: i32,
    pub hp: i32,
    pub mp: i32,
    pub spd: i32,
    pub heal: i32,
    pub mana: i32,
    pub value: i32,
    pub tier: i32,
    /// dagger|sword|hammer|spear|scythe ("" = unarmed/sword)
    pub wclass: String,
    pub palette: Vec<(String, String)>,
    pub sprite: Vec<String>,
}

/// The slots gear can be worn in.
pub open spec fn equip_kind(k: Seq<char>) -> bool {
    k == "weapon"@ || k == "offhand"@ || k == "head"@ || k == "chest"@ || k == "legs"@ || k == "boots"@
        || k == "ring"@
}

fn same(a: &String, b: &str) -> (r: bool)
    ensures
        r == (a@ == b@),
{
    let b = String::from_str(b);
    *a == b
}

impl ItemDef {
    /// Gear: something worn in one of the equipment slots.
    pub fn is_equippable(&self) -> (b: bool)
        ensures
            b == equip_kind(self.kind@),
    {
        same(&self.kind, "weapon") || same(&self.kind, "offhand") || same(&self.kind, "head") || same(
            &self.kind,
            "chest",
        ) || same(&self.kind, "legs") || same(&self.kind, "boots") || same(&self.kind, "ring")
    }

    /// Consumables: potions.
    pub fn is_usable(&self) -> (b: bool)
        ensures
            b == (self.kind@ == "potion"@),
    {
        same(&self.kind, "potion")
    }
}

/// A friendly character; shopkeepers run the co-op, fighters roam the wild.
pub struct NpcDef {
    pub id: String,
    pub name: String,
    pub shopkeeper: bool,
    pub fighter: bool,
    pub hp: i32,
    pub atk: i32,
    pub lines: Vec<String>,
    pub palette: Vec<(String, String)>,
    pub sprite: Vec<String>,
}

/// A call-and-response pair of lines for two NPCs.
pub struct BanterDef {
    pub a: String,
    pub b: String,
}

/// A spell; `radius` and `range` are in hundredths of a tile.
pub struct SpellDef {
    pub id: String,
    pub name: String,
    pub desc: String,
    pub cost: i32,
    pub damage: i32,
    pub radius: i32,
    pub heal: i32,
    pub range: i32,
    pub unlock_level: i32,
    pub color: String,
}

#[derive(Clone, Copy)]
pub struct StatBlock {
    pub atk: i32,
    pub def: i32,
    pub hp: i32,
    pub mp: i32,
    pub spd: i32,
}

/// An item prefix or suffix; `value_mult` is in thousandths.
pub struct AffixDef {
    pub id: String,
    pub name: String,
    pub value_mult: i32,
    pub stats: StatBlock,
}

/// A skill-tree node; `amount` is in hundredths.
pub struct SkillDef {
    pub id: String,
    pub name: String,
    pub desc: String,
    /// column in the tree
    pub branch: usize,
    /// row in the tree
    pub tier: i32,
    pub requires: String,
    /// atk|def|hp|mp|spd|crit|dodge|mana_regen|gold|xp|focus
    pub stat: String,
    pub amount: i32,
}

/// Unlocked once the named stat reaches the threshold.
pub struct AchievementDef {
    pub id: String,
    pub name: String,
    pub desc: String,
    pub stat: String,
    pub threshold: i64,
}

/// All game content.
pub struct Content {
    pub mobs: Vec<MobDef>,
    pub items: Vec<ItemDef>,
    pub npcs: Vec<NpcDef>,
    pub spells: Vec<SpellDef>,
    pub achievements: Vec<AchievementDef>,
    pub graffiti: Vec<String>,
    pub banter: Vec<BanterDef>,
    pub skills: Vec<SkillDef>,
    pub emotes_npc: Vec<String>,
    pub emotes_mob: Vec<String>,
    pub prefixes: Vec<AffixDef>,
    pub suffixes: Vec<AffixDef>,
}

/// Index of the first of `ids` equal to `id`, or -1.
pub open spec fn lookup(ids: Seq<Seq<char>>, id: Seq<char>) -> int
    decreases ids.len(),
{
    if ids.len() == 0 {
        -1
    } else if ids[0] == id {
        0
    } else {
        let r = lookup(ids.drop_first(), id);
        if r < 0 { -1 } else { r + 1 }
    }
}

/// `lookup` finds the first match, or reports that there is none.
pub proof fn lemma_lookup(ids: Seq<Seq<char>>, id: Seq<char>, i: int)
    requires
        0 <= i <= ids.len(),
        forall|j: int| 0 <= j < i ==> ids[j] != id,
    ensures
        i < ids.len() && ids[i] == id ==> lookup(ids, id) == i,
        i == ids.len() ==> lookup(ids, id) == -1,
    decreases i,
{
    if i > 0 {
        assert forall|j: int| 0 <= j < i - 1 implies ids.drop_first()[j] != id by {
            assert(ids.drop_first()[j] == ids[j + 1]);
        }
        lemma_lookup(ids.drop_first(), id, i - 1);
        if i < ids.len() && ids[i] == id {
            assert(ids.drop_first()[i - 1] == ids[i]);
        }
    } else if ids.len() > 0 {
    }
}

pub proof fn lemma_lookup_range(ids: Seq<Seq<char>>, id: Seq<char>)
    ensures
        -1 <= lookup(ids, id) < ids.len(),
        lookup(ids, id) >= 0 ==> ids[lookup(ids, id)] == id,
        lookup(ids, id) == -1 ==> forall|j: int| 0 <= j < ids.len() ==> ids[j] != id,
    decreases ids.len(),
{
    if ids.len() > 0 {
        lemma_lookup_range(ids.drop_first(), id);
        if lookup(ids, id) == -1 {
            assert forall|j: int| 0 <= j < ids.len() implies ids[j] != id by {
                if j > 0 {
                    assert(ids.drop_first()[j - 1] == ids[j]);
                }
            }
        }
    }
}

pub open spec fn item_ids(items: Seq<ItemDef>) -> Seq<Seq<char>> {
    items.map_values(|d: ItemDef| d.id@)
}

pub open spec fn affix_ids(a: Seq<AffixDef>) -> Seq<Seq<char>> {
    a.map_values(|d: AffixDef| d.id@)
}

/// The definition of item `id` (the first with that id), if any.
pub open spec fn item_def(items: Seq<ItemDef>, id: Seq<char>) -> Option<ItemDef> {
    let k = lookup(item_ids(items), id);
    if k >= 0 { Some(items[k]) } else { None }
}

pub open spec fn affix_def(a: Seq<AffixDef>, id: Seq<char>) -> Option<AffixDef> {
    let k = lookup(affix_ids(a), id);
    if k >= 0 { Some(a[k]) } else { None }
}

fn find_affix<'a>(list: &'a Vec<AffixDef>, id: &str) -> (r: Option<&'a AffixDef>)
    ensures
        match r {
            Some(d) => affix_def(list@, id@) == Some(*d),
            None => affix_def(list@, id@) is None,
        },
{
    let key = String::from_str(id);
    let ghost ids = affix_ids(list@);
    let mut i: usize = 0;
    while i < list.len()
        invariant
            i <= list@.len(),
            ids == affix_ids(list@),
            key@ == id@,
            forall|j: int| 0 <= j < i ==> ids[j] != id@,
        decreases list@.len() - i,
    {
        if list[i].id == key {
            proof { lemma_lookup(ids, id@, i as int); }
            return Some(&list[i]);
        }
        i = i + 1;
    }
    proof { lemma_lookup(ids, id@, i as int); }
    None
}

/// Indices of the entries in `flags` that are set, in order.
pub open spec fn indices_where(flags: Seq<bool>) -> Seq<int>
    decreases flags.len(),
{
    if flags.len() == 0 {
        Seq::empty()
    } else {
        indices_where(flags.drop_last()) + (if flags.last() { seq![flags.len() - 1] } else { Seq::empty() })
    }
}

pub open spec fn as_ints(v: Seq<usize>) -> Seq<int> {
    v.map_values(|i: usize| i as int)
}

pub proof fn lemma_indices_where_bound(flags: Seq<bool>)
    ensures
        forall|i: int| 0 <= i < indices_where(flags).len() ==> 0 <= #[trigger] indices_where(flags)[i] < flags.len()
            && flags[indices_where(flags)[i]],
        indices_where(flags).len() <= flags.len(),
    decreases flags.len(),
{
    if flags.len() > 0 {
        lemma_indices_where_bound(flags.drop_last());
        let a = indices_where(flags.drop_last());
        let b: Seq<int> = if flags.last() { seq![flags.len() - 1] } else { Seq::empty() };
        assert forall|i: int| 0 <= i < (a + b).len() implies 0 <= #[trigger] (a + b)[i] < flags.len()
            && flags[(a + b)[i]] by {
            if i < a.len() {
                assert(flags.drop_last()[a[i]] == flags[a[i]]);
            }
        }
    }
}

impl Content {
    /// The definition of item `id`, if any.
    pub fn item(&self, id: &str) -> (r: Option<&ItemDef>)
        ensures
            match r {
                Some(d) => item_def(self.items@, id@) == Some(*d),
                None => item_def(self.items@, id@) is None,
            },
    {
        let key = String::from_str(id);
        let ghost ids = item_ids(self.items@);
        let mut i: usize = 0;
        while i < self.items.len()
            invariant
                i <= self.items@.len(),
                ids == item_ids(self.items@),
                key@ == id@,
                forall|j: int| 0 <= j < i ==> ids[j] != id@,
            decreases self.items@.len() - i,
        {
            if self.items[i].id == key {
                proof { lemma_lookup(ids, id@, i as int); }
                return Some(&self.items[i]);
            }
            i = i + 1;
        }
        proof { lemma_lookup(ids, id@, i as int); }
        None
    }

    /// The prefix affix `id`, if any.
    pub fn prefix(&self, id: &str) -> (r: Option<&AffixDef>)
        ensures
            match r {
                Some(d) => affix_def(self.prefixes@, id@) == Some(*d),
                None => affix_def(self.prefixes@, id@) is None,
            },
    {
        find_affix(&self.prefixes, id)
    }

    /// The suffix affix `id`, if any.
    pub fn suffix(&self, id: &str) -> (r: Option<&AffixDef>)
        ensures
            match r {
                Some(d) => affix_def(self.suffixes@, id@) == Some(*d),
                None => affix_def(self.suffixes@, id@) is None,
            },
    {
        find_affix(&self.suffixes, id)
    }

    /// Indices of the mob types of a tier.
    pub fn mobs_of_tier(&self, tier: i32) -> (v: Vec<usize>)
        ensures
            as_ints(v@) == indices_where(self.mobs@.map_values(|m: MobDef| m.tier == tier)),
    {
        let ghost flags = self.mobs@.map_values(|m: MobDef| m.tier == tier);
        let mut v: Vec<usize> = Vec::new();
        let mut i: usize = 0;
        while i < self.mobs.len()
            invariant
                i <= self.mobs@.len(),
                flags == self.mobs@.map_values(|m: MobDef| m.tier == tier),
                as_ints(v@) == indices_where(flags.take(i as int)),
            decreases self.mobs@.len() - i,
        {
            let ghost before = v@;
            if self.mobs[i].tier == tier {
                v.push(i);
            }
            proof {
                assert(flags.take(i + 1).drop_last() =~= flags.take(i as int));
                assert(as_ints(v@) =~= as_ints(before) + (if flags[i as int] { seq![i as int] } else { Seq::<int>::empty() }));
            }
            i = i + 1;
        }
        assert(flags.take(i as int) =~= flags);
        v
    }

    /// Indices of the NPCs that are neither shopkeepers nor fighters.
    pub fn civilians(&self) -> (v: Vec<usize>)
        ensures
            as_ints(v@) == indices_where(self.npcs@.map_values(|n: NpcDef| !n.shopkeeper && !n.fighter)),
    {
        let ghost flags = self.npcs@.map_values(|n: NpcDef| !n.shopkeeper && !n.fighter);
        let mut v: Vec<usize> = Vec::new();
        let mut i: usize = 0;
        while i < self.npcs.len()
            invariant
                i <= self.npcs@.len(),
                flags == self.npcs@.map_values(|n: NpcDef| !n.shopkeeper && !n.fighter),
                as_ints(v@) == indices_where(flags.take(i as int)),
            decreases self.npcs@.len() - i,
        {
            let ghost before = v@;
            if !self.npcs[i].shopkeeper && !self.npcs[i].fighter {
                v.push(i);
            }
            proof {
                assert(flags.take(i + 1).drop_last() =~= flags.take(i as int));
                assert(as_ints(v@) =~= as_ints(before) + (if flags[i as int] { seq![i as int] } else { Seq::<int>::empty() }));
            }
            i = i + 1;
        }
        assert(flags.take(i as int) =~= flags);
        v
    }

    /// Indices of the fighter NPCs.
    pub fn fighters(&self) -> (v: Vec<usize>)
        ensures
            as_ints(v@) == indices_where(self.npcs@.map_values(|n: NpcDef| n.fighter)),
    {
        let ghost flags = self.npcs@.map_values(|n: NpcDef| n.fighter);
        let mut v: Vec<usize> = Vec::new();
        let mut i: usize = 0;
        while i < self.npcs.len()
            invariant
                i <= self.npcs@.len(),
                flags == self.npcs@.map_values(|n: NpcDef| n.fighter),
                as_ints(v@) == indices_where(flags.take(i as int)),
            decreases self.npcs@.len() - i,
        {
            let ghost before = v@;
            if self.npcs[i].fighter {
                v.push(i);
            }
            proof {
                assert(flags.take(i + 1).drop_last() =~= flags.take(i as int));
                assert(as_ints(v@) =~= as_ints(before) + (if flags[i as int] { seq![i as int] } else { Seq::<int>::empty() }));
            }
            i = i + 1;
        }
        assert(flags.take(i as int) =~= flags);
        v
    }

    /// Index of the first shopkeeper, if any.
    pub fn shopkeeper(&self) -> (r: Option<usize>)
        ensures
            r matches Some(k) ==> k < self.npcs@.len() && self.npcs@[k as int].shopkeeper && forall|j: int|
                0 <= j < k ==> !(#[trigger] self.npcs@[j]).shopkeeper,
            r is None ==> forall|j: int| 0 <= j < self.npcs@.len() ==> !(#[trigger] self.npcs@[j]).shopkeeper,
    {
        let mut i: usize = 0;
        while i < self.npcs.len()
            invariant
                i <= self.npcs@.len(),
                forall|j: int| 0 <= j < i ==> !(#[trigger] self.npcs@[j]).shopkeeper,
            decreases self.npcs@.len() - i,
        {
            if self.npcs[i].shopkeeper {
                return Some(i);
            }
            i = i + 1;
        }
        None
    }

    /// Indices of the spells a character of `level` knows, in order.
    pub fn known_spells(&self, level: i32) -> (v: Vec<usize>)
        ensures
            as_ints(v@) == indices_where(self.spells@.map_values(|s: SpellDef| s.unlock_level <= level)),
    {
        let ghost flags = self.spells@.map_values(|s: SpellDef| s.unlock_level <= level);
        let mut v: Vec<usize> = Vec::new();
        let mut i: usize = 0;
        while i < self.spells.len()
            invariant
                i <= self.spells@.len(),
                flags == self.spells@.map_values(|s: SpellDef| s.unlock_level <= level),
                as_ints(v@) == indices_where(flags.take(i as int)),
            decreases self.spells@.len() - i,
        {
            let ghost before = v@;
            if self.spells[i].unlock_level <= level {
                v.push(i);
            }
            proof {
                assert(flags.take(i + 1).drop_last() =~= flags.take(i as int));
                assert(as_ints(v@) =~= as_ints(before) + (if flags[i as int] { seq![i as int] } else { Seq::<int>::empty() }));
            }
            i = i + 1;
        }
        assert(flags.take(i as int) =~= flags);
        v
    }

    /// Indices of the items of at most `max_tier` (the loot and co-op pool).
    pub fn items_up_to_tier(&self, max_tier: i32) -> (v: Vec<usize>)
        ensures
            as_ints(v@) == indices_where(self.items@.map_values(|d: ItemDef| d.tier <= max_tier)),
    {
        let ghost flags = self.items@.map_values(|d: ItemDef| d.tier <= max_tier);
        let mut v: Vec<usize> = Vec::new();
        let mut i: usize = 0;
        while i < self.items.len()
            invariant
                i <= self.items@.len(),
                flags == self.items@.map_values(|d: ItemDef| d.tier <= max_tier),
                as_ints(v@) == indices_where(flags.take(i as int)),
            decreases self.items@.len() - i,
        {
            let ghost before = v@;
            if self.items[i].tier <= max_tier {
                v.push(i);
            }
            proof {
                assert(flags.take(i + 1).drop_last() =~= flags.take(i as int));
                assert(as_ints(v@) =~= as_ints(before) + (if flags[i as int] { seq![i as int] } else { Seq::<int>::empty() }));
            }
            i = i + 1;
        }
        assert(flags.take(i as int) =~= flags);
        v
    }
}

} // verus!
