//! The rules of a run: the player's progression and gear, the profile of
//! stats and achievements, toasts, chests, the co-op, and what the E key
//! does. Positions, movement and combat geometry work in floating point and
//! stay with the application, which asks these rules for every decision.

use vstd::prelude::*;
use std::collections::VecDeque;
use crate::content::{Content, ItemDef, AchievementDef, item_def, lookup, lemma_lookup, lemma_lookup_range, as_ints, indices_where, lemma_indices_where_bound};
use crate::dungeon::{DungeonMap, CustomLevel, Tile, generate, generated, from_custom, parsed, grid_of, widest, MAX_SIDE};
use crate::rng::gen_range;
use crate::text::{push_int, push_nat, push_str, decimal};

verus! {

/// The equipment slots, in paper-doll order.
pub const EQUIP_SLOTS: [&'static str; 7] = ["weapon", "offhand", "head", "chest", "legs", "boots", "ring"];
/// Backpack capacity, in stacks.
pub const INV_CAP: usize = 24;

/// A stack of identical items in the backpack.
pub struct ItemStack {
    pub id: String,
    pub qty: i32,
}

/// Sound/feedback events; the main loop drains these and plays SFX.
#[derive(PartialEq, Eq, Structural, Clone, Copy, Debug)]
pub enum GameEvent {
    Swing,
    Hit,
    Kill,
    Hurt,
    Pickup,
    LevelUp,
    Cast,
    Chest,
    Rest,
}

/// The player's progression and belongings. `base_spd` is in pixels per
/// second; `equipment` maps a slot to the id of the item worn there.
pub struct Player {
    pub hp: i32,
    pub mp: i32,
    pub base_maxhp: i32,
    pub base_maxmp: i32,
    pub base_atk: i32,
    pub base_def: i32,
    pub base_spd: i32,
    pub xp: i64,
    pub level: i32,
    pub gold: i64,
    pub inventory: Vec<ItemStack>,
    pub equipment: Vec<(String, String)>,
}

/// A backpack as (id, quantity) pairs.
pub open spec fn stacks(inv: Seq<ItemStack>) -> Seq<(Seq<char>, int)> {
    inv.map_values(|s: ItemStack| (s.id@, s.qty as int))
}

pub open spec fn stack_ids(inv: Seq<(Seq<char>, int)>) -> Seq<Seq<char>> {
    inv.map_values(|s: (Seq<char>, int)| s.0)
}

/// The backpack after picking up one `id`, and whether it fit: an existing
/// stack grows; otherwise a new stack is started if there is room.
pub open spec fn inv_add(inv: Seq<(Seq<char>, int)>, id: Seq<char>) -> (Seq<(Seq<char>, int)>, bool) {
    let k = lookup(stack_ids(inv), id);
    if k >= 0 {
        (inv.update(k, (id, inv[k].1 + 1)), true)
    } else if inv.len() >= INV_CAP {
        (inv, false)
    } else {
        (inv.push((id, 1)), true)
    }
}

/// The backpack after taking one item out of stack `idx` (a stack that
/// runs out disappears; an index past the end changes nothing).
pub open spec fn inv_remove(inv: Seq<(Seq<char>, int)>, idx: int) -> Seq<(Seq<char>, int)> {
    if 0 <= idx < inv.len() {
        if inv[idx].1 - 1 <= 0 {
            inv.remove(idx)
        } else {
            inv.update(idx, (inv[idx].0, inv[idx].1 - 1))
        }
    } else {
        inv
    }
}

/// A tidy backpack: within capacity, no empty stacks, one stack per item.
pub open spec fn inv_wf(inv: Seq<(Seq<char>, int)>) -> bool {
    &&& inv.len() <= INV_CAP
    &&& forall|i: int| 0 <= i < inv.len() ==> (#[trigger] inv[i]).1 >= 1
    &&& forall|i: int, j: int| 0 <= i < inv.len() && 0 <= j < inv.len() && i != j ==> (#[trigger] inv[i]).0 != (#[trigger] inv[j]).0
}

/// The experience needed for the next level: the whole part of
/// `24 * level^1.5`, i.e. the integer square root of `576 * level^3`
/// (nothing below level 1).
pub open spec fn xp_need(level: int) -> int {
    if level <= 0 {
        0
    } else {
        isqrt(576 * level * level * level)
    }
}

pub open spec fn is_isqrt(n: int, r: int) -> bool {
    0 <= r && r * r <= n < (r + 1) * (r + 1)
}

pub open spec fn isqrt(n: int) -> int {
    choose|r: int| #[trigger] is_isqrt(n, r)
}

proof fn lemma_isqrt_unique(n: int, r: int, s: int)
    requires
        is_isqrt(n, r),
        is_isqrt(n, s),
    ensures
        r == s,
{
    if r < s {
        assert((r + 1) * (r + 1) <= s * s) by (nonlinear_arith)
            requires
                0 <= r < s,
        ;
    } else if s < r {
        assert((s + 1) * (s + 1) <= r * r) by (nonlinear_arith)
            requires
                0 <= s < r,
        ;
    }
}

/// Integer square root by bisection.
fn isqrt_u128(n: u128) -> (r: u128)
    requires
        n < 0x100000000000000000000000000,
    ensures
        is_isqrt(n as int, r as int),
{
    let mut lo: u128 = 0;
    let mut hi: u128 = 0x10000000000000;
    assert(hi * hi == 0x100000000000000000000000000);
    while lo + 1 < hi
        invariant
            lo < hi <= 0x10000000000000,
            lo * lo <= n,
            n < hi * hi,
        decreases hi - lo,
    {
        let mid = lo + (hi - lo) / 2;
        assert(mid * mid <= 0x100000000000000000000000000) by (nonlinear_arith)
            requires
                mid <= 0x10000000000000,
        ;
        if mid * mid <= n {
            lo = mid;
        } else {
            hi = mid;
        }
    }
    assert(hi == lo + 1);
    lo
}

/// The experience needed for a level is the integer square root of
/// 576 times level cubed, whichever root is exhibited.
pub proof fn lemma_xp_need(level: int, r: int)
    requires
        level >= 1,
        is_isqrt(576 * level * level * level, r),
    ensures
        xp_need(level) == r,
{
    let n = 576 * level * level * level;
    lemma_isqrt_unique(n, r, isqrt(n));
}

/// The experience needed for the next level is at least 24 from level 1 on.
pub proof fn lemma_xp_need_min(level: int)
    requires
        level >= 1,
    ensures
        xp_need(level) >= 24,
{
    let n = 576 * level * level * level;
    assert(n >= 576) by (nonlinear_arith)
        requires
            level >= 1,
            n == 576 * level * level * level,
    ;
    let r = isqrt(n);
    lemma_isqrt_exists(n);
    assert(is_isqrt(n, r));
    if r < 24 {
        assert((r + 1) * (r + 1) <= 576) by (nonlinear_arith)
            requires
                0 <= r < 24,
        ;
    }
}

proof fn lemma_isqrt_exists(n: int)
    requires
        n >= 0,
    ensures
        exists|r: int| #[trigger] is_isqrt(n, r),
    decreases n,
{
    if n == 0 {
        assert(is_isqrt(0, 0));
    } else {
        lemma_isqrt_exists(n - 1);
        let r = choose|r: int| #[trigger] is_isqrt(n - 1, r);
        if (r + 1) * (r + 1) <= n {
            assert((r + 1) * (r + 1) == n);
            assert(n < (r + 2) * (r + 2)) by (nonlinear_arith)
                requires
                    (r + 1) * (r + 1) == n,
                    r >= 0,
            ;
            assert(is_isqrt(n, r + 1));
        } else {
            assert(is_isqrt(n, r));
        }
    }
}

/// The sum of one stat over the gear worn in the first `k` equipment
/// entries (gear whose definition is missing adds nothing).
pub open spec fn gear_sum(
    eq: Seq<(String, String)>,
    items: Seq<ItemDef>,
    stat: spec_fn(ItemDef) -> i32,
    k: int,
) -> int
    decreases k,
{
    if k <= 0 {
        0
    } else {
        gear_sum(eq, items, stat, k - 1) + match item_def(items, eq[k - 1].1@) {
            Some(d) => stat(d) as int,
            None => 0,
        }
    }
}

pub open spec fn stat_atk() -> spec_fn(ItemDef) -> i32 { |d: ItemDef| d.atk }
pub open spec fn stat_def() -> spec_fn(ItemDef) -> i32 { |d: ItemDef| d.def }
pub open spec fn stat_hp() -> spec_fn(ItemDef) -> i32 { |d: ItemDef| d.hp }
pub open spec fn stat_mp() -> spec_fn(ItemDef) -> i32 { |d: ItemDef| d.mp }
pub open spec fn stat_spd() -> spec_fn(ItemDef) -> i32 { |d: ItemDef| d.spd }

pub open spec fn fits_i32(v: int) -> bool {
    i32::MIN <= v <= i32::MAX
}

/// A fresh adventurer's numbers and belongings.
pub open spec fn is_fresh(p: Player) -> bool {
    &&& p.hp == 40 && p.mp == 20
    &&& p.base_maxhp == 40 && p.base_maxmp == 20
    &&& p.base_atk == 3 && p.base_def == 0 && p.base_spd == 92
    &&& p.xp == 0 && p.level == 1 && p.gold == 25
    &&& stacks(p.inventory@) == seq![("bread"@, 2int), ("rusty_shiv"@, 1int)]
    &&& p.equipment@.len() == 0
}

impl Player {
    /// A fresh adventurer: 40 HP, 20 MP, 3 ATK, speed 92, 25 gold, two
    /// loaves of bread and a rusty shiv.
    pub fn new() -> (p: Player)
        ensures
            is_fresh(p),
    {
        let mut inventory: Vec<ItemStack> = Vec::new();
        inventory.push(ItemStack { id: String::from_str("bread"), qty: 2 });
        inventory.push(ItemStack { id: String::from_str("rusty_shiv"), qty: 1 });
        assert(stacks(inventory@) =~= seq![("bread"@, 2int), ("rusty_shiv"@, 1int)]);
        Player {
            hp: 40,
            mp: 20,
            base_maxhp: 40,
            base_maxmp: 20,
            base_atk: 3,
            base_def: 0,
            base_spd: 92,
            xp: 0,
            level: 1,
            gold: 25,
            inventory,
            equipment: Vec::new(),
        }
    }

    /// Each running total of the gear bonuses stays within `i32` (the
    /// computation overflows otherwise).
    pub open spec fn totals_fit(&self, items: Seq<ItemDef>) -> bool {
        forall|k: int|
            0 <= k <= self.equipment@.len() ==> {
                &&& fits_i32(self.base_atk + #[trigger] gear_sum(self.equipment@, items, stat_atk(), k))
                &&& fits_i32(self.base_def + gear_sum(self.equipment@, items, stat_def(), k))
                &&& fits_i32(self.base_maxhp + gear_sum(self.equipment@, items, stat_hp(), k))
                &&& fits_i32(self.base_maxmp + gear_sum(self.equipment@, items, stat_mp(), k))
                &&& fits_i32(self.base_spd + gear_sum(self.equipment@, items, stat_spd(), k))
            }
    }

    /// (atk, def, maxhp, maxmp, spd) with the gear's bonuses.
    pub open spec fn spec_totals(&self, items: Seq<ItemDef>) -> (int, int, int, int, int) {
        let n = self.equipment@.len() as int;
        (
            self.base_atk + gear_sum(self.equipment@, items, stat_atk(), n),
            self.base_def + gear_sum(self.equipment@, items, stat_def(), n),
            self.base_maxhp + gear_sum(self.equipment@, items, stat_hp(), n),
            self.base_maxmp + gear_sum(self.equipment@, items, stat_mp(), n),
            self.base_spd + gear_sum(self.equipment@, items, stat_spd(), n),
        )
    }

    /// (atk, def, maxhp, maxmp, spd) with equipment bonuses applied.
    pub fn totals(&self, c: &Content) -> (t: (i32, i32, i32, i32, i32))
        requires
            self.totals_fit(c.items@),
        ensures
            t.0 == self.spec_totals(c.items@).0,
            t.1 == self.spec_totals(c.items@).1,
            t.2 == self.spec_totals(c.items@).2,
            t.3 == self.spec_totals(c.items@).3,
            t.4 == self.spec_totals(c.items@).4,
    {
        let mut atk = self.base_atk;
        let mut def = self.base_def;
        let mut hp = self.base_maxhp;
        let mut mp = self.base_maxmp;
        let mut spd = self.base_spd;
        let mut k: usize = 0;
        while k < self.equipment.len()
            invariant
                k <= self.equipment@.len(),
                self.totals_fit(c.items@),
                atk == self.base_atk + gear_sum(self.equipment@, c.items@, stat_atk(), k as int),
                def == self.base_def + gear_sum(self.equipment@, c.items@, stat_def(), k as int),
                hp == self.base_maxhp + gear_sum(self.equipment@, c.items@, stat_hp(), k as int),
                mp == self.base_maxmp + gear_sum(self.equipment@, c.items@, stat_mp(), k as int),
                spd == self.base_spd + gear_sum(self.equipment@, c.items@, stat_spd(), k as int),
            decreases self.equipment@.len() - k,
        {
            let ghost kk = k + 1;
            assert(fits_i32(self.base_atk + gear_sum(self.equipment@, c.items@, stat_atk(), kk)));
            if let Some(it) = c.item(self.equipment[k].1.as_str()) {
                atk = atk + it.atk;
                def = def + it.def;
                hp = hp + it.hp;
                mp = mp + it.mp;
                spd = spd + it.spd;
            }
            k = k + 1;
        }
        (atk, def, hp, mp, spd)
    }

    /// Experience needed to reach the next level (see `xp_need`).
    pub fn xp_to_next(&self) -> (n: i64)
        ensures
            n == xp_need(self.level as int),
    {
        if self.level <= 0 {
            return 0;
        }
        let l = self.level as u128;
        assert(l * l <= 0x4000000000000000) by (nonlinear_arith)
            requires
                1 <= l <= 0x7fffffff,
        ;
        let sq = l * l;
        assert(sq * l <= 0x200000000000000000000000) by (nonlinear_arith)
            requires
                sq <= 0x4000000000000000,
                1 <= l <= 0x7fffffff,
        ;
        let cube = sq * l;
        let r = isqrt_u128(576 * cube);
        proof {
            assert(576 * cube == 576 * (self.level as int) * (self.level as int) * (self.level as int)) by (nonlinear_arith)
                requires
                    cube == sq * l,
                    sq == l * l,
                    l == self.level,
            ;
            lemma_xp_need(self.level as int, r as int);
            assert(r * r <= 0x100000000000000000000000000);
            assert(r <= 0x10000000000000) by (nonlinear_arith)
                requires
                    r * r <= 0x100000000000000000000000000,
            ;
        }
        r as i64
    }

    /// Picks up one `id`: an existing stack grows, else a new stack starts if
    /// the backpack has room. Returns whether it fit.
    pub fn add_item(&mut self, id: &str) -> (ok: bool)
        requires
            forall|i: int| 0 <= i < old(self).inventory@.len() ==> (#[trigger] old(self).inventory@[i]).qty < i32::MAX,
        ensures
            stacks(final(self).inventory@) == inv_add(stacks(old(self).inventory@), id@).0,
            ok == inv_add(stacks(old(self).inventory@), id@).1,
            final(self).equipment == old(self).equipment,
            final(self).hp == old(self).hp && final(self).mp == old(self).mp,
            final(self).base_maxhp == old(self).base_maxhp && final(self).base_maxmp == old(self).base_maxmp,
            final(self).base_atk == old(self).base_atk && final(self).base_def == old(self).base_def,
            final(self).base_spd == old(self).base_spd,
            final(self).xp == old(self).xp && final(self).level == old(self).level,
            final(self).gold == old(self).gold,
    {
        let key = String::from_str(id);
        let ghost inv = stacks(self.inventory@);
        let ghost ids = stack_ids(inv);
        let mut i: usize = 0;
        while i < self.inventory.len()
            invariant
                i <= self.inventory@.len(),
                inv == stacks(self.inventory@),
                ids == stack_ids(inv),
                key@ == id@,
                forall|j: int| 0 <= j < i ==> ids[j] != id@,
                *self == *old(self),
                forall|j: int| 0 <= j < self.inventory@.len() ==> (#[trigger] self.inventory@[j]).qty < i32::MAX,
            decreases self.inventory@.len() - i,
        {
            if self.inventory[i].id == key {
                proof { lemma_lookup(ids, id@, i as int); }
                let q = self.inventory[i].qty;
                let st = ItemStack { id: key, qty: q + 1 };
                self.inventory.set(i, st);
                assert(stacks(self.inventory@) =~= inv.update(i as int, (id@, inv[i as int].1 + 1)));
                return true;
            }
            i = i + 1;
        }
        proof { lemma_lookup(ids, id@, i as int); }
        if self.inventory.len() >= INV_CAP {
            return false;
        }
        self.inventory.push(ItemStack { id: key, qty: 1 });
        assert(stacks(self.inventory@) =~= inv.push((id@, 1)));
        true
    }

    /// Takes one item out of stack `idx`; a stack that runs out disappears.
    pub fn remove_item(&mut self, idx: usize)
        requires
            idx < old(self).inventory@.len() ==> old(self).inventory@[idx as int].qty > i32::MIN,
        ensures
            stacks(final(self).inventory@) == inv_remove(stacks(old(self).inventory@), idx as int),
            final(self).equipment == old(self).equipment,
            final(self).hp == old(self).hp && final(self).mp == old(self).mp,
            final(self).base_maxhp == old(self).base_maxhp && final(self).base_maxmp == old(self).base_maxmp,
            final(self).base_atk == old(self).base_atk && final(self).base_def == old(self).base_def,
            final(self).base_spd == old(self).base_spd,
            final(self).xp == old(self).xp && final(self).level == old(self).level,
            final(self).gold == old(self).gold,
    {
        let ghost inv = stacks(self.inventory@);
        if idx < self.inventory.len() {
            let q = self.inventory[idx].qty - 1;
            if q <= 0 {
                self.inventory.remove(idx);
                assert(stacks(self.inventory@) =~= inv.remove(idx as int));
            } else {
                let id = self.inventory[idx].id.clone();
                self.inventory.set(idx, ItemStack { id, qty: q });
                assert(stacks(self.inventory@) =~= inv.update(idx as int, (inv[idx as int].0, inv[idx as int].1 - 1)));
            }
        }
    }
}

/// A treasure chest on the map.
#[derive(Clone, Copy, Debug)]
pub struct Chest {
    pub tx: usize,
    pub ty: usize,
    pub opened: bool,
}

/// What pressing E did.
pub enum Interaction {
    Dialog { who: String, text: String },
    Shop,
    Descend,
    Rested,
    ChestLoot { text: String },
    /// Nothing to interact with.
    Nothing,
}

/// How long a toast stays up, in milliseconds.
pub const TOAST_MS: u32 = 4000;
/// How many toasts are kept at once.
pub const MAX_TOASTS: usize = 4;

/// The rule-bearing state of a run (the application keeps the moving
/// entities beside it): the level, the player, the chests, pending feedback
/// events, the depth, the profile of stats and unlocked achievements, the
/// toast queue (text and milliseconds left) and the co-op's stock.
pub struct World {
    pub map: DungeonMap,
    pub player: Player,
    pub chests: Vec<Chest>,
    pub events: Vec<GameEvent>,
    pub depth: i32,
    pub stats: Vec<(String, i64)>,
    pub unlocked: Vec<String>,
    pub toasts: VecDeque<(String, u32)>,
    pub shop_stock: Vec<String>,
}

/// Stats as (name, value) pairs.
pub open spec fn stat_pairs(s: Seq<(String, i64)>) -> Seq<(Seq<char>, int)> {
    s.map_values(|e: (String, i64)| (e.0@, e.1 as int))
}

pub open spec fn pair_keys(s: Seq<(Seq<char>, int)>) -> Seq<Seq<char>> {
    s.map_values(|e: (Seq<char>, int)| e.0)
}

/// The value of stat `key` (0 when it was never recorded).
pub open spec fn stat_val(s: Seq<(Seq<char>, int)>, key: Seq<char>) -> int {
    let k = lookup(pair_keys(s), key);
    if k >= 0 { s[k].1 } else { 0 }
}

/// The stats with `key` set to `v` (added at the end if new).
pub open spec fn stat_set(s: Seq<(Seq<char>, int)>, key: Seq<char>, v: int) -> Seq<(Seq<char>, int)> {
    let k = lookup(pair_keys(s), key);
    if k >= 0 { s.update(k, (key, v)) } else { s.push((key, v)) }
}

pub open spec fn names(s: Seq<String>) -> Seq<Seq<char>> {
    s.map_values(|e: String| e@)
}

pub open spec fn toast_view(q: Seq<(String, u32)>) -> Seq<(Seq<char>, int)> {
    q.map_values(|e: (String, u32)| (e.0@, e.1 as int))
}

/// The queue after a new toast: appended with the full time, the oldest
/// dropped when more than `MAX_TOASTS` are up.
pub open spec fn toast_push(q: Seq<(Seq<char>, int)>, t: Seq<char>) -> Seq<(Seq<char>, int)> {
    let q2 = q.push((t, TOAST_MS as int));
    if q2.len() > MAX_TOASTS { q2.drop_first() } else { q2 }
}

/// The queue after toasting each message in turn.
pub open spec fn push_all(q: Seq<(Seq<char>, int)>, msgs: Seq<Seq<char>>) -> Seq<(Seq<char>, int)>
    decreases msgs.len(),
{
    if msgs.len() == 0 {
        q
    } else {
        toast_push(push_all(q, msgs.drop_last()), msgs.last())
    }
}

/// The toast that announces an achievement.
pub open spec fn ach_msg(a: AchievementDef) -> Seq<char> {
    "Achievement: "@ + a.name@ + " — "@ + a.desc@
}

/// Going through the first `k` achievements: those not yet unlocked whose
/// stat has reached the threshold get unlocked, each with a toast. Returns
/// the unlocked ids and the toasts.
pub open spec fn ach_pass(
    achs: Seq<AchievementDef>,
    stats: Seq<(Seq<char>, int)>,
    unl: Seq<Seq<char>>,
    k: int,
) -> (Seq<Seq<char>>, Seq<Seq<char>>)
    decreases k,
{
    if k <= 0 {
        (unl, Seq::empty())
    } else {
        let prev = ach_pass(achs, stats, unl, k - 1);
        let a = achs[k - 1];
        if !prev.0.contains(a.id@) && stat_val(stats, a.stat@) >= a.threshold {
            (prev.0.push(a.id@), prev.1.push(ach_msg(a)))
        } else {
            prev
        }
    }
}

/// The profile after checking every achievement.
pub open spec fn checked(
    achs: Seq<AchievementDef>,
    stats: Seq<(Seq<char>, int)>,
    unl: Seq<Seq<char>>,
    q: Seq<(Seq<char>, int)>,
) -> (Seq<Seq<char>>, Seq<(Seq<char>, int)>) {
    let r = ach_pass(achs, stats, unl, achs.len() as int);
    (r.0, push_all(q, r.1))
}

/// Everything but the profile (stats, achievements, toasts) is unchanged.
pub open spec fn same_but_profile(a: World, b: World) -> bool {
    &&& a.map == b.map
    &&& a.player == b.player
    &&& a.chests == b.chests
    &&& a.events == b.events
    &&& a.depth == b.depth
    &&& a.shop_stock == b.shop_stock
}

proof fn lemma_toast_len(q: Seq<(Seq<char>, int)>, msgs: Seq<Seq<char>>)
    requires
        q.len() <= MAX_TOASTS,
    ensures
        push_all(q, msgs).len() <= MAX_TOASTS,
    decreases msgs.len(),
{
    if msgs.len() > 0 {
        lemma_toast_len(q, msgs.drop_last());
    }
}

impl World {
    /// Shows a message for `TOAST_MS`; only the newest `MAX_TOASTS` stay up.
    pub fn toast(&mut self, text: String)
        ensures
            toast_view(final(self).toasts@) == toast_push(toast_view(old(self).toasts@), text@),
            same_but_profile(*old(self), *final(self)),
            final(self).stats == old(self).stats,
            final(self).unlocked == old(self).unlocked,
    {
        let ghost q = toast_view(self.toasts@);
        self.toasts.push_back((text, TOAST_MS));
        assert(toast_view(self.toasts@) =~= q.push((text@, TOAST_MS as int)));
        if self.toasts.len() > MAX_TOASTS {
            let ghost before = self.toasts@;
            self.toasts.pop_front();
            assert(self.toasts@ =~= before.drop_first());
            assert(toast_view(self.toasts@) =~= q.push((text@, TOAST_MS as int)).drop_first());
        }
    }

    /// Lets `dt_ms` milliseconds pass for the oldest toast; it goes away
    /// when its time is up. (Only the oldest toast's clock runs.)
    pub fn tick_toasts(&mut self, dt_ms: u32)
        ensures
            toast_view(final(self).toasts@) == (if old(self).toasts@.len() == 0 {
                toast_view(old(self).toasts@)
            } else if old(self).toasts@[0].1 <= dt_ms {
                toast_view(old(self).toasts@).drop_first()
            } else {
                toast_view(old(self).toasts@).update(0, (old(self).toasts@[0].0@, old(self).toasts@[0].1 - dt_ms))
            }),
            same_but_profile(*old(self), *final(self)),
            final(self).stats == old(self).stats,
            final(self).unlocked == old(self).unlocked,
    {
        let ghost q = toast_view(self.toasts@);
        if self.toasts.len() > 0 {
            let ghost before = self.toasts@;
            let front = self.toasts.pop_front();
            assert(self.toasts@ =~= before.drop_first());
            if let Some((text, t)) = front {
                if t <= dt_ms {
                    assert(toast_view(self.toasts@) =~= q.drop_first());
                } else {
                    self.toasts.push_front((text, t - dt_ms));
                    assert(toast_view(self.toasts@) =~= q.update(0, (old(self).toasts@[0].0@, old(self).toasts@[0].1 - dt_ms)));
                }
            }
        }
    }

    fn stat_index(&self, key: &String) -> (r: Option<usize>)
        ensures
            match r {
                Some(k) => k as int == lookup(pair_keys(stat_pairs(self.stats@)), key@),
                None => lookup(pair_keys(stat_pairs(self.stats@)), key@) == -1,
            },
            lookup(pair_keys(stat_pairs(self.stats@)), key@) < self.stats@.len(),
    {
        let ghost ks = pair_keys(stat_pairs(self.stats@));
        proof { lemma_lookup_range(ks, key@); }
        let mut i: usize = 0;
        while i < self.stats.len()
            invariant
                i <= self.stats@.len(),
                ks == pair_keys(stat_pairs(self.stats@)),
                forall|j: int| 0 <= j < i ==> ks[j] != key@,
            decreases self.stats@.len() - i,
        {
            if self.stats[i].0 == *key {
                proof { lemma_lookup(ks, key@, i as int); }
                return Some(i);
            }
            i = i + 1;
        }
        proof { lemma_lookup(ks, key@, i as int); }
        None
    }

    /// The value of stat `key` (0 when never recorded).
    pub fn stat(&self, key: &str) -> (v: i64)
        ensures
            v == stat_val(stat_pairs(self.stats@), key@),
    {
        let key = String::from_str(key);
        match self.stat_index(&key) {
            Some(k) => self.stats[k].1,
            None => 0,
        }
    }

    /// Sets stat `key` to `v` without checking achievements.
    fn set_stat(&mut self, key: String, v: i64)
        ensures
            stat_pairs(final(self).stats@) == stat_set(stat_pairs(old(self).stats@), key@, v as int),
            same_but_profile(*old(self), *final(self)),
            final(self).unlocked == old(self).unlocked,
            final(self).toasts == old(self).toasts,
    {
        let ghost st = stat_pairs(self.stats@);
        match self.stat_index(&key) {
            Some(k) => {
                let ghost kk = key@;
                self.stats.set(k, (key, v));
                assert(stat_pairs(self.stats@) =~= st.update(k as int, (kk, v as int)));
            },
            None => {
                let ghost kk = key@;
                self.stats.push((key, v));
                assert(stat_pairs(self.stats@) =~= st.push((kk, v as int)));
            },
        }
    }

    fn is_unlocked(&self, id: &String) -> (b: bool)
        ensures
            b == names(self.unlocked@).contains(id@),
    {
        let mut i: usize = 0;
        while i < self.unlocked.len()
            invariant
                i <= self.unlocked@.len(),
                forall|j: int| 0 <= j < i ==> names(self.unlocked@)[j] != id@,
            decreases self.unlocked@.len() - i,
        {
            if self.unlocked[i] == *id {
                assert(names(self.unlocked@)[i as int] == id@);
                return true;
            }
            i = i + 1;
        }
        false
    }

    /// Unlocks every achievement whose stat has reached its threshold, with a
    /// toast for each.
    pub fn check_achievements(&mut self, content: &Content)
        ensures
            names(final(self).unlocked@) == checked(content.achievements@, stat_pairs(old(self).stats@),
                names(old(self).unlocked@), toast_view(old(self).toasts@)).0,
            toast_view(final(self).toasts@) == checked(content.achievements@, stat_pairs(old(self).stats@),
                names(old(self).unlocked@), toast_view(old(self).toasts@)).1,
            final(self).stats == old(self).stats,
            same_but_profile(*old(self), *final(self)),
    {
        let ghost achs = content.achievements@;
        let ghost st = stat_pairs(self.stats@);
        let ghost u0 = names(self.unlocked@);
        let ghost q0 = toast_view(self.toasts@);
        let mut i: usize = 0;
        while i < content.achievements.len()
            invariant
                i <= achs.len(),
                achs == content.achievements@,
                st == stat_pairs(self.stats@),
                names(self.unlocked@) == ach_pass(achs, st, u0, i as int).0,
                toast_view(self.toasts@) == push_all(q0, ach_pass(achs, st, u0, i as int).1),
                self.stats == old(self).stats,
                same_but_profile(*old(self), *self),
            decreases achs.len() - i,
        {
            let a = &content.achievements[i];
            if !self.is_unlocked(&a.id) {
                let v = self.stat(a.stat.as_str());
                if v >= a.threshold {
                    let ghost before = self.unlocked@;
                    self.unlocked.push(a.id.clone());
                    assert(names(self.unlocked@) =~= names(before).push(a.id@));
                    let mut msg = String::from_str("Achievement: ");
                    push_str(&mut msg, a.name.as_str());
                    push_str(&mut msg, " — ");
                    push_str(&mut msg, a.desc.as_str());
                    assert(msg@ =~= ach_msg(*a));
                    let ghost msgs = ach_pass(achs, st, u0, i as int).1;
                    self.toast(msg);
                    assert(msgs.push(ach_msg(*a)).drop_last() =~= msgs);
                }
            }
            i = i + 1;
        }
    }

    /// Adds `amount` to stat `key`, then checks achievements.
    pub fn add_stat(&mut self, key: &str, amount: i64, content: &Content)
        requires
            i64::MIN <= stat_val(stat_pairs(old(self).stats@), key@) + amount <= i64::MAX,
        ensures
            stat_pairs(final(self).stats@) == stat_set(stat_pairs(old(self).stats@), key@,
                stat_val(stat_pairs(old(self).stats@), key@) + amount),
            names(final(self).unlocked@) == checked(content.achievements@, stat_pairs(final(self).stats@),
                names(old(self).unlocked@), toast_view(old(self).toasts@)).0,
            toast_view(final(self).toasts@) == checked(content.achievements@, stat_pairs(final(self).stats@),
                names(old(self).unlocked@), toast_view(old(self).toasts@)).1,
            same_but_profile(*old(self), *final(self)),
    {
        let v = self.stat(key);
        self.set_stat(String::from_str(key), v + amount);
        self.check_achievements(content);
    }

    /// Raises stat `key` to `value` if that is higher (recording the stat,
    /// at 0, if it was new), then checks achievements.
    pub fn bump_stat_max(&mut self, key: &str, value: i64, content: &Content)
        ensures
            stat_pairs(final(self).stats@) == stat_set(stat_pairs(old(self).stats@), key@,
                if value > stat_val(stat_pairs(old(self).stats@), key@) { value as int } else {
                    stat_val(stat_pairs(old(self).stats@), key@) }),
            names(final(self).unlocked@) == checked(content.achievements@, stat_pairs(final(self).stats@),
                names(old(self).unlocked@), toast_view(old(self).toasts@)).0,
            toast_view(final(self).toasts@) == checked(content.achievements@, stat_pairs(final(self).stats@),
                names(old(self).unlocked@), toast_view(old(self).toasts@)).1,
            same_but_profile(*old(self), *final(self)),
    {
        let v = self.stat(key);
        let nv = if value > v { value } else { v };
        self.set_stat(String::from_str(key), nv);
        self.check_achievements(content);
    }
}

/// The highest item tier the co-op and chests offer at `depth`.
pub open spec fn loot_tier(depth: int) -> int {
    1 + crate::dungeon::quot(depth, 2)
}

/// The chests of a map's chest spots, all closed.
pub open spec fn closed_chests(spots: Seq<(usize, usize)>, chests: Seq<Chest>) -> bool {
    &&& chests.len() == spots.len()
    &&& forall|i: int| 0 <= i < spots.len() ==> (#[trigger] chests[i]).tx == spots[i].0 && chests[i].ty == spots[i].1
        && !chests[i].opened
}

/// A valid co-op stock: at most eight distinct items, each of at most
/// `max_tier`; empty on a level without a shop.
pub open spec fn stock_ok(stock: Seq<Seq<char>>, items: Seq<ItemDef>, max_tier: int, has_shop: bool) -> bool {
    &&& stock.len() <= 8
    &&& !has_shop ==> stock.len() == 0
    &&& stock.len() <= items.len()
    &&& forall|i: int, j: int| 0 <= i < stock.len() && 0 <= j < stock.len() && i != j ==> #[trigger] stock[i] != #[trigger] stock[j]
    &&& forall|i: int| 0 <= i < stock.len() ==> exists|j: int|
        0 <= j < items.len() && items[j].tier <= max_tier && (#[trigger] items[j]).id@ == #[trigger] stock[i]
}

/// The items of at most `max_tier`, as indices into the content, in order.
pub open spec fn tier_pool(items: Seq<ItemDef>, max_tier: int) -> Seq<int> {
    indices_where(items.map_values(|d: ItemDef| d.tier <= max_tier))
}

/// How many items the co-op wants: eight, or all of the pool when smaller.
pub open spec fn stock_want(items: Seq<ItemDef>, max_tier: int) -> int {
    let n = tier_pool(items, max_tier).len() as int;
    if n < 8 { n } else { 8 }
}

/// The stock that a run of picks (places in the tier pool) gives: each
/// picked item joins unless it is already in or the stock is full.
pub open spec fn stock_from_picks(items: Seq<ItemDef>, max_tier: int, picks: Seq<int>) -> Seq<Seq<char>>
    decreases picks.len(),
{
    if picks.len() == 0 {
        Seq::empty()
    } else {
        let s = stock_from_picks(items, max_tier, picks.drop_last());
        let id = items[tier_pool(items, max_tier)[picks.last()]].id@;
        if s.len() < stock_want(items, max_tier) && !s.contains(id) { s.push(id) } else { s }
    }
}

/// Picks that the co-op's draws can give: each a place in the tier pool.
pub open spec fn picks_ok(items: Seq<ItemDef>, max_tier: int, picks: Seq<int>) -> bool {
    forall|i: int| 0 <= i < picks.len() ==> 0 <= #[trigger] picks[i] < tier_pool(items, max_tier).len()
}

/// A co-op stock as drawn: valid (`stock_ok`); on a shop level what at most
/// 200 random picks give, stopping early once the stock is full; and never
/// empty on a shop level when some item qualifies.
pub open spec fn shop_stocked(stock: Seq<Seq<char>>, items: Seq<ItemDef>, max_tier: int, has_shop: bool) -> bool {
    &&& stock_ok(stock, items, max_tier, has_shop)
    &&& has_shop ==> exists|picks: Seq<int>| {
        &&& picks.len() <= 200
        &&& picks_ok(items, max_tier, picks)
        &&& stock == #[trigger] stock_from_picks(items, max_tier, picks)
        &&& (stock.len() == stock_want(items, max_tier) || picks.len() == 200)
    }
    &&& (has_shop && exists|j: int| 0 <= j < items.len() && (#[trigger] items[j]).tier <= max_tier) ==> stock.len() >= 1
}

/// An item qualifying puts something in the tier pool.
proof fn lemma_pool_has(items: Seq<ItemDef>, max_tier: int, j: int)
    requires
        0 <= j < items.len(),
        items[j].tier <= max_tier,
    ensures
        tier_pool(items, max_tier).len() > 0,
    decreases items.len(),
{
    let flags = items.map_values(|d: ItemDef| d.tier <= max_tier);
    let last = items.len() - 1;
    if j == last {
        assert(flags.last());
    } else {
        lemma_pool_has(items.drop_last(), max_tier, j);
        assert(items.drop_last().map_values(|d: ItemDef| d.tier <= max_tier) =~= flags.drop_last());
    }
}

/// Once a pick has been made from a non-empty pool the stock holds something.
proof fn lemma_stock_nonempty(items: Seq<ItemDef>, max_tier: int, picks: Seq<int>)
    requires
        picks.len() > 0,
        tier_pool(items, max_tier).len() > 0,
    ensures
        stock_from_picks(items, max_tier, picks).len() >= 1,
    decreases picks.len(),
{
    if picks.len() > 1 {
        lemma_stock_nonempty(items, max_tier, picks.drop_last());
    }
}

/// What loading a level promises: a generated level for the depth (or the
/// custom level when it parses), closed chests on its chest spots, a fresh
/// co-op stock; the player, profile, events and depth untouched.
pub open spec fn level_loaded(old: World, new: World, content: Content, custom: Option<&CustomLevel>) -> bool {
    let gl = content.graffiti@.len() as int;
    &&& match custom {
        Some(c) => {
            let g = grid_of(c.rows@);
            if c.rows@.len() < 3 || widest(g, c.rows@.len() as int) < 3 {
                generated(new.map, old.depth as int, gl)
            } else {
                parsed(new.map, g, gl)
            }
        },
        None => generated(new.map, old.depth as int, gl),
    }
    &&& closed_chests(new.map.chest_spots@, new.chests@)
    &&& shop_stocked(names(new.shop_stock@), content.items@, loot_tier(old.depth as int), new.map.has_shop)
    &&& new.player == old.player
    &&& new.stats == old.stats
    &&& new.unlocked == old.unlocked
    &&& new.toasts == old.toasts
    &&& new.events == old.events
    &&& new.depth == old.depth
}

/// What a custom level must satisfy to be read.
pub open spec fn custom_ok(custom: Option<&CustomLevel>) -> bool {
    match custom {
        Some(c) => widest(grid_of(c.rows@), c.rows@.len() as int) <= MAX_SIDE && c.rows@.len() <= MAX_SIDE,
        None => true,
    }
}

/// Depths that level generation accepts.
pub open spec fn depth_ok(depth: int) -> bool {
    depth >= 0 || depth < -14
}

/// The co-op stock that the picks `picks` (places in the pool of items of at
/// most `max_tier`) give (see `stock_from_picks`).
pub fn shop_stock_for(content: &Content, max_tier: i32, picks: &Vec<usize>) -> (stock: Vec<String>)
    requires
        content.items@.len() <= i32::MAX,
        picks_ok(content.items@, max_tier as int, as_ints(picks@)),
    ensures
        names(stock@) == stock_from_picks(content.items@, max_tier as int, as_ints(picks@)),
        stock_ok(names(stock@), content.items@, max_tier as int, true),
        stock@.len() <= stock_want(content.items@, max_tier as int),
{
    let pool = content.items_up_to_tier(max_tier);
    let ghost flags = content.items@.map_values(|d: ItemDef| d.tier <= max_tier);
    proof { lemma_indices_where_bound(flags); }
    let want: usize = if pool.len() < 8 { pool.len() } else { 8 };
    let mut stock: Vec<String> = Vec::new();
    let mut i: usize = 0;
    while i < picks.len()
        invariant
            i <= picks@.len(),
            want <= 8,
            want <= pool@.len(),
            want == stock_want(content.items@, max_tier as int),
            stock@.len() <= want,
            as_ints(pool@) == indices_where(flags),
            as_ints(pool@) == tier_pool(content.items@, max_tier as int),
            flags == content.items@.map_values(|d: ItemDef| d.tier <= max_tier),
            pool@.len() <= content.items@.len(),
            content.items@.len() <= i32::MAX,
            forall|k: int| 0 <= k < indices_where(flags).len() ==> 0 <= #[trigger] indices_where(flags)[k] < flags.len()
                && flags[indices_where(flags)[k]],
            picks_ok(content.items@, max_tier as int, as_ints(picks@)),
            names(stock@) == stock_from_picks(content.items@, max_tier as int, as_ints(picks@).take(i as int)),
            stock_ok(names(stock@), content.items@, max_tier as int, true),
        decreases picks@.len() - i,
    {
        let pick = picks[i];
        assert(as_ints(picks@)[i as int] == pick as int);
        let idx = pool[pick];
        assert(as_ints(pool@)[pick as int] == idx as int);
        assert(flags[idx as int]);
        let id = &content.items[idx].id;
        let ghost s0 = names(stock@);
        let ghost ps = as_ints(picks@).take(i + 1);
        assert(ps.drop_last() =~= as_ints(picks@).take(i as int));
        assert(ps.last() == pick as int);
        let mut dup = false;
        let mut k: usize = 0;
        while k < stock.len()
            invariant
                k <= stock@.len(),
                s0 == names(stock@),
                !dup ==> forall|a: int| 0 <= a < k ==> s0[a] != id@,
                dup ==> s0.contains(id@),
            decreases stock@.len() - k,
        {
            if stock[k] == *id {
                dup = true;
                assert(s0[k as int] == id@);
            }
            k = k + 1;
        }
        if !dup && stock.len() < want {
            let ghost before = stock@;
            stock.push(id.clone());
            proof {
                let st = names(stock@);
                assert(st =~= names(before).push(id@));
                assert(content.items@[idx as int].id@ == st[before.len() as int]);
                assert forall|a: int| 0 <= a < st.len() implies exists|j: int|
                    0 <= j < content.items@.len() && content.items@[j].tier <= max_tier
                        && (#[trigger] content.items@[j]).id@ == #[trigger] st[a] by {
                    if a < before.len() {
                        assert(st[a] == names(before)[a]);
                    } else {
                        assert(content.items@[idx as int].id@ == st[a]);
                    }
                }
                assert(st == stock_from_picks(content.items@, max_tier as int, ps));
            }
        } else {
            assert(s0 == stock_from_picks(content.items@, max_tier as int, ps));
        }
        i = i + 1;
    }
    assert(as_ints(picks@).take(i as int) =~= as_ints(picks@));
    stock
}

impl World {
    /// Closed chests on the map's chest spots and, on a shop level, up to
    /// eight distinct items of at most the depth's loot tier for the co-op.
    fn populate(&mut self, content: &Content)
        requires
            content.items@.len() <= i32::MAX,
        ensures
            closed_chests(final(self).map.chest_spots@, final(self).chests@),
            shop_stocked(names(final(self).shop_stock@), content.items@, loot_tier(old(self).depth as int), final(self).map.has_shop),
            final(self).map == old(self).map,
            final(self).player == old(self).player,
            final(self).stats == old(self).stats,
            final(self).unlocked == old(self).unlocked,
            final(self).toasts == old(self).toasts,
            final(self).events == old(self).events,
            final(self).depth == old(self).depth,
    {
        let mut chests: Vec<Chest> = Vec::new();
        let mut i: usize = 0;
        while i < self.map.chest_spots.len()
            invariant
                i <= self.map.chest_spots@.len(),
                chests@.len() == i,
                forall|j: int| 0 <= j < i ==> (#[trigger] chests@[j]).tx == self.map.chest_spots@[j].0
                    && chests@[j].ty == self.map.chest_spots@[j].1 && !chests@[j].opened,
            decreases self.map.chest_spots@.len() - i,
        {
            let (tx, ty) = self.map.chest_spots[i];
            chests.push(Chest { tx, ty, opened: false });
            i = i + 1;
        }
        self.chests = chests;
        let mut stock: Vec<String> = Vec::new();
        let max_tier = 1 + self.depth / 2;
        proof {
            assert(loot_tier(old(self).depth as int) == max_tier);
        }
        if self.map.has_shop {
            let pool = content.items_up_to_tier(max_tier);
            let want: usize = if pool.len() < 8 { pool.len() } else { 8 };
            let mut picks: Vec<usize> = Vec::new();
            while stock.len() < want && picks.len() < 200
                invariant
                    as_ints(pool@) == tier_pool(content.items@, max_tier as int),
                    want == stock_want(content.items@, max_tier as int),
                    content.items@.len() <= i32::MAX,
                    picks@.len() <= 200,
                    picks_ok(content.items@, max_tier as int, as_ints(picks@)),
                    names(stock@) == stock_from_picks(content.items@, max_tier as int, as_ints(picks@)),
                    stock_ok(names(stock@), content.items@, max_tier as int, true),
                    stock@.len() <= want,
                decreases 200 - picks@.len(),
            {
                proof { lemma_indices_where_bound(content.items@.map_values(|d: ItemDef| d.tier <= max_tier)); }
                let pick = gen_range(0, pool.len() as i32) as usize;
                let ghost before = as_ints(picks@);
                picks.push(pick);
                assert(as_ints(picks@) =~= before.push(pick as int));
                stock = shop_stock_for(content, max_tier, &picks);
            }
            proof {
                let ps = as_ints(picks@);
                assert(names(stock@) == stock_from_picks(content.items@, max_tier as int, ps));
                if exists|j: int| 0 <= j < content.items@.len() && (#[trigger] content.items@[j]).tier <= max_tier {
                    let j = choose|j: int| 0 <= j < content.items@.len() && (#[trigger] content.items@[j]).tier <= max_tier;
                    lemma_pool_has(content.items@, max_tier as int, j);
                    if ps.len() == 0 {
                        assert(stock_from_picks(content.items@, max_tier as int, ps) =~= Seq::<Seq<char>>::empty());
                    }
                    lemma_stock_nonempty(content.items@, max_tier as int, ps);
                }
                assert(names(stock@).len() == stock_want(content.items@, max_tier as int) || ps.len() == 200);
                assert(shop_stocked(names(stock@), content.items@, max_tier as int, true));
            }
        }
        assert(shop_stocked(names(stock@), content.items@, max_tier as int, self.map.has_shop));
        self.shop_stock = stock;
    }

    /// Loads the next level: the custom level when it parses, else a
    /// generated one for the current depth; then chests and the co-op.
    pub fn load_level(&mut self, content: &Content, custom: Option<&CustomLevel>)
        requires
            depth_ok(old(self).depth as int),
            content.graffiti@.len() <= i32::MAX,
            content.items@.len() <= i32::MAX,
            custom_ok(custom),
        ensures
            level_loaded(*old(self), *final(self), *content, custom),
    {
        let gl = content.graffiti.len();
        let parsed_map = match custom {
            Some(c) => from_custom(c, gl),
            None => None,
        };
        self.map = match parsed_map {
            Some(m) => m,
            None => generate(self.depth, gl),
        };
        self.chests = Vec::new();
        self.populate(content);
    }

    /// A new run at depth 1.
    pub fn new(content: &Content) -> (w: World)
        requires
            content.graffiti@.len() <= i32::MAX,
            content.items@.len() <= i32::MAX,
        ensures
            w.depth == 1,
            generated(w.map, 1, content.graffiti@.len() as int),
            closed_chests(w.map.chest_spots@, w.chests@),
            shop_stocked(names(w.shop_stock@), content.items@, 1, w.map.has_shop),
            is_fresh(w.player),
            w.stats@.len() == 0 && w.unlocked@.len() == 0 && w.toasts@.len() == 0,
            w.events@.len() == 0,
    {
        let mut w = World {
            map: generate(1, content.graffiti.len()),
            player: Player::new(),
            chests: Vec::new(),
            events: Vec::new(),
            depth: 1,
            stats: Vec::new(),
            unlocked: Vec::new(),
            toasts: VecDeque::new(),
            shop_stock: Vec::new(),
        };
        w.populate(content);
        w
    }
}

/// The effect of `add_stat(key, amount)` on the profile, starting from stats `base`.
pub open spec fn stat_added_on(
    base: Seq<(Seq<char>, int)>,
    old: World,
    new: World,
    key: Seq<char>,
    amount: int,
    content: Content,
) -> bool {
    let st = stat_set(base, key, stat_val(base, key) + amount);
    &&& stat_pairs(new.stats@) == st
    &&& names(new.unlocked@) == checked(content.achievements@, st, names(old.unlocked@), toast_view(old.toasts@)).0
    &&& toast_view(new.toasts@) == checked(content.achievements@, st, names(old.unlocked@), toast_view(old.toasts@)).1
}

/// The effect of `add_stat(key, amount)` on the profile.
pub open spec fn stat_added(old: World, new: World, key: Seq<char>, amount: int, content: Content) -> bool {
    stat_added_on(stat_pairs(old.stats@), old, new, key, amount, content)
}

/// The toast for arriving at a depth.
pub open spec fn depth_msg(d: int) -> Seq<char> {
    "Depth "@ + decimal(d) + " — the air smells of unpaid invoices."@
}

/// Whether a campfire lies on `near` or one of its eight neighbours.
pub open spec fn campfire_near(m: DungeonMap, near: (i32, i32)) -> bool {
    exists|dx: int, dy: int|
        -1 <= dx <= 1 && -1 <= dy <= 1 && #[trigger] m.spec_tile(near.0 + dx, near.1 + dy) == Tile::Campfire
}

/// A line one of the NPC's lines, or the default greeting when it has none.
pub open spec fn npc_line(lines: Seq<String>, text: Seq<char>) -> bool {
    if lines.len() == 0 {
        text == "Solidarity, friend."@
    } else {
        exists|k: int| 0 <= k < lines.len() && text == (#[trigger] lines[k])@
    }
}

/// The text of a chest's loot: the gold, and the item when one fit in the backpack.
pub open spec fn chest_msg(gold: int) -> Seq<char> {
    "+"@ + decimal(gold) + " gold for the strike fund"@
}

/// The graffiti line `idx`, or "SOLIDARITY" past the end of the list.
pub open spec fn graffiti_text(lines: Seq<String>, idx: int) -> Seq<char> {
    if 0 <= idx < lines.len() { lines[idx]@ } else { "SOLIDARITY"@ }
}

/// The stat that records having read graffiti line `idx`.
pub open spec fn seen_key(idx: int) -> Seq<char> {
    "graffiti_seen_"@ + decimal(idx)
}

impl World {
    /// Descends one level: the next depth's level (or the custom level),
    /// the deepest depth recorded, and a toast.
    pub fn descend(&mut self, content: &Content, custom: Option<&CustomLevel>)
        requires
            old(self).depth < i32::MAX,
            depth_ok(old(self).depth + 1),
            content.graffiti@.len() <= i32::MAX,
            content.items@.len() <= i32::MAX,
            custom_ok(custom),
        ensures
            final(self).depth == old(self).depth + 1,
            level_loaded(World { depth: (old(self).depth + 1) as i32, ..*old(self) },
                World { stats: old(self).stats, unlocked: old(self).unlocked, toasts: old(self).toasts, ..*final(self) },
                *content, custom),
            stat_pairs(final(self).stats@) == stat_set(stat_pairs(old(self).stats@), "depth"@,
                if old(self).depth + 1 > stat_val(stat_pairs(old(self).stats@), "depth"@) { old(self).depth + 1 } else {
                    stat_val(stat_pairs(old(self).stats@), "depth"@) }),
            names(final(self).unlocked@) == checked(content.achievements@, stat_pairs(final(self).stats@),
                names(old(self).unlocked@), toast_view(old(self).toasts@)).0,
            toast_view(final(self).toasts@) == toast_push(checked(content.achievements@, stat_pairs(final(self).stats@),
                names(old(self).unlocked@), toast_view(old(self).toasts@)).1, depth_msg(old(self).depth + 1)),
    {
        self.depth = self.depth + 1;
        let ghost mid = *self;
        self.load_level(content, custom);
        let d = self.depth;
        self.bump_stat_max("depth", d as i64, content);
        let mut msg = String::from_str("Depth ");
        push_int(&mut msg, d as i64);
        push_str(&mut msg, " — the air smells of unpaid invoices.");
        self.toast(msg);
    }

    /// Whether a campfire lies within one tile of `near`.
    pub fn campfire_near(&self, near: (i32, i32)) -> (b: bool)
        requires
            self.map.wf(),
            i32::MIN < near.0 < i32::MAX,
            i32::MIN < near.1 < i32::MAX,
        ensures
            b == campfire_near(self.map, near),
    {
        let mut dy: i32 = -1;
        while dy <= 1
            invariant
                self.map.wf(),
                -1 <= dy <= 2,
                i32::MIN < near.0 < i32::MAX,
                i32::MIN < near.1 < i32::MAX,
                forall|ddx: int, ddy: int| -1 <= ddx <= 1 && -1 <= ddy < dy ==> #[trigger] self.map.spec_tile(near.0 + ddx, near.1 + ddy) != Tile::Campfire,
            decreases 2 - dy,
        {
            let mut dx: i32 = -1;
            while dx <= 1
                invariant
                    self.map.wf(),
                    -1 <= dx <= 2,
                    -1 <= dy <= 1,
                    i32::MIN < near.0 < i32::MAX,
                    i32::MIN < near.1 < i32::MAX,
                    forall|ddx: int| -1 <= ddx < dx ==> #[trigger] self.map.spec_tile(near.0 + ddx, near.1 + dy) != Tile::Campfire,
                decreases 2 - dx,
            {
                if self.map.tile(near.0 + dx, near.1 + dy) == Tile::Campfire {
                    assert(self.map.spec_tile(near.0 + dx, near.1 + dy) == Tile::Campfire);
                    return true;
                }
                dx = dx + 1;
            }
            dy = dy + 1;
        }
        false
    }
}

impl World {
    /// Back on your feet after a death: a new run at depth 1 that keeps the
    /// profile (stats and achievements) of the run that ended.
    pub fn revive(self, content: &Content) -> (w: World)
        requires
            content.graffiti@.len() <= i32::MAX,
            content.items@.len() <= i32::MAX,
        ensures
            w.depth == 1,
            generated(w.map, 1, content.graffiti@.len() as int),
            closed_chests(w.map.chest_spots@, w.chests@),
            shop_stocked(names(w.shop_stock@), content.items@, 1, w.map.has_shop),
            is_fresh(w.player),
            w.events@.len() == 0,
            w.stats == self.stats && w.unlocked == self.unlocked,
            toast_view(w.toasts@) == seq![("Back on your feet. The commons remembers."@, TOAST_MS as int)],
    {
        let stats = self.stats;
        let unlocked = self.unlocked;
        let mut w = World::new(content);
        w.stats = stats;
        w.unlocked = unlocked;
        w.toast(String::from_str("Back on your feet. The commons remembers."));
        assert(toast_view(w.toasts@) =~= seq![("Back on your feet. The commons remembers."@, TOAST_MS as int)]);
        w
    }

    /// A new run on a custom level (the menu's L key); `test` says whether
    /// it was launched from the level creator, which the toast mentions.
    pub fn play_custom(content: &Content, level: &CustomLevel, test: bool) -> (w: World)
        requires
            content.graffiti@.len() <= i32::MAX,
            content.items@.len() <= i32::MAX,
            custom_ok(Some(level)),
        ensures
            w.depth == 1,
            is_fresh(w.player),
            w.stats@.len() == 0 && w.unlocked@.len() == 0 && w.events@.len() == 0,
            (from_custom_spec_ok(level) ==> parsed(w.map, grid_of(level.rows@), content.graffiti@.len() as int)),
            (!from_custom_spec_ok(level) ==> generated(w.map, 1, content.graffiti@.len() as int)),
            closed_chests(w.map.chest_spots@, w.chests@),
            shop_stocked(names(w.shop_stock@), content.items@, 1, w.map.has_shop),
            toast_view(w.toasts@) == seq![(if test {
                "Test-playing your level. F9 to hop back into the editor."@
            } else {
                "Playing your custom level. Nice work, architect."@
            }, TOAST_MS as int)],
    {
        let mut w = World::new(content);
        w.load_level(content, Some(level));
        if test {
            w.toast(String::from_str("Test-playing your level. F9 to hop back into the editor."));
        } else {
            w.toast(String::from_str("Playing your custom level. Nice work, architect."));
        }
        assert(toast_view(w.toasts@) =~= seq![(if test {
            "Test-playing your level. F9 to hop back into the editor."@
        } else {
            "Playing your custom level. Nice work, architect."@
        }, TOAST_MS as int)]);
        w
    }
}

/// Whether a custom level is big enough to read (three rows, one of them
/// three characters long).
pub open spec fn from_custom_spec_ok(level: &CustomLevel) -> bool {
    level.rows@.len() >= 3 && widest(grid_of(level.rows@), level.rows@.len() as int) >= 3
}

/// Recorded stats are `i64` values.
pub proof fn lemma_stat_range(s: Seq<(String, i64)>, key: Seq<char>)
    ensures
        i64::MIN <= stat_val(stat_pairs(s), key) <= i64::MAX,
{
    let ks = pair_keys(stat_pairs(s));
    lemma_lookup_range(ks, key);
    let k = lookup(ks, key);
    if k >= 0 {
        assert(stat_pairs(s)[k].1 == s[k].1 as int);
    }
}

/// Setting one stat leaves the others as they were.
pub proof fn lemma_stat_set_other(s: Seq<(Seq<char>, int)>, key: Seq<char>, v: int, other: Seq<char>)
    requires
        key != other,
    ensures
        stat_val(stat_set(s, key, v), other) == stat_val(s, other),
{
    let ks = pair_keys(s);
    lemma_lookup_range(ks, key);
    lemma_lookup_range(ks, other);
    let k = lookup(ks, key);
    let s2 = stat_set(s, key, v);
    let ks2 = pair_keys(s2);
    if k >= 0 {
        assert(ks2 =~= ks.update(k, key));
    } else {
        assert(ks2 =~= ks.push(key));
    }
    let o = lookup(ks, other);
    if o >= 0 {
        assert forall|j: int| 0 <= j < o implies ks2[j] != other by {
            if j < ks.len() {
                lemma_lookup_first(ks, other, j);
            }
        }
        lemma_lookup(ks2, other, o);
    } else {
        assert forall|j: int| 0 <= j < ks2.len() implies ks2[j] != other by {}
        lemma_lookup(ks2, other, ks2.len() as int);
    }
}

proof fn lemma_lookup_first(ids: Seq<Seq<char>>, id: Seq<char>, j: int)
    requires
        0 <= j < lookup(ids, id),
    ensures
        ids[j] != id,
    decreases ids.len(),
{
    lemma_lookup_range(ids, id);
    if ids.len() > 0 && ids[0] != id && j > 0 {
        lemma_lookup_first(ids.drop_first(), id, j - 1);
        assert(ids.drop_first()[j - 1] == ids[j]);
    }
}

fn pick_line(lines: &Vec<String>) -> (s: String)
    requires
        0 < lines@.len() <= i32::MAX,
    ensures
        exists|k: int| 0 <= k < lines@.len() && s@ == (#[trigger] lines@[k])@,
{
    let k = gen_range(0, lines.len() as i32) as usize;
    let s = lines[k].clone();
    assert(s@ == lines@[k as int]@);
    s
}

/// One of the lines, at random, or nothing when there are none (what a
/// mob or a fighter shouts when its turn to speak comes).
pub fn shout(lines: &Vec<String>) -> (r: Option<String>)
    requires
        lines@.len() <= i32::MAX,
    ensures
        r is None <==> lines@.len() == 0,
        r matches Some(s) ==> exists|k: int| 0 <= k < lines@.len() && s@ == (#[trigger] lines@[k])@,
{
    if lines.len() == 0 {
        None
    } else {
        Some(pick_line(lines))
    }
}

/// Whether a roll out of 100 lets an NPC with `n` lines talk to themselves:
/// they need a line and a roll below 40.
pub open spec fn muses(n: int, roll: int) -> bool {
    n > 0 && roll < 40
}

/// What an NPC alone near the player says to themselves, given the roll
/// `roll` out of 100: one of their lines when `muses`, else nothing.
pub fn muse_on_roll(lines: &Vec<String>, roll: i32) -> (r: Option<String>)
    requires
        lines@.len() <= i32::MAX,
    ensures
        r is Some <==> muses(lines@.len() as int, roll as int),
        r matches Some(s) ==> exists|k: int| 0 <= k < lines@.len() && s@ == (#[trigger] lines@[k])@,
{
    if lines.len() > 0 && roll < 40 {
        Some(pick_line(lines))
    } else {
        None
    }
}

/// An NPC alone near the player sometimes talks to themselves: with a
/// 40-in-100 roll one of their lines, else nothing.
pub fn muse(lines: &Vec<String>) -> (r: Option<String>)
    requires
        lines@.len() <= i32::MAX,
    ensures
        lines@.len() == 0 ==> r is None,
        exists|roll: int| 0 <= roll < 100 && (r is Some <==> #[trigger] muses(lines@.len() as int, roll)),
        r matches Some(s) ==> exists|k: int| 0 <= k < lines@.len() && s@ == (#[trigger] lines@[k])@,
{
    if lines.len() == 0 {
        assert(!muses(0, 0));
        return None;
    }
    let roll = gen_range(0, 100);
    let r = muse_on_roll(lines, roll);
    assert(r is Some <==> muses(lines@.len() as int, roll as int));
    r
}

/// A call-and-response pair for two NPCs standing together, at random, or
/// nothing when the content has none.
pub fn banter_pair(content: &Content) -> (r: Option<(String, String)>)
    requires
        content.banter@.len() <= i32::MAX,
    ensures
        r is None <==> content.banter@.len() == 0,
        r matches Some(p) ==> exists|k: int|
            0 <= k < content.banter@.len() && p.0@ == (#[trigger] content.banter@[k]).a@ && p.1@ == content.banter@[k].b@,
{
    if content.banter.len() == 0 {
        return None;
    }
    let k = gen_range(0, content.banter.len() as i32) as usize;
    let b = &content.banter[k];
    Some((b.a.clone(), b.b.clone()))
}

/// Everything but the player and the profile is unchanged.
pub open spec fn same_level(a: World, b: World) -> bool {
    &&& a.map == b.map
    &&& a.chests == b.chests
    &&& a.depth == b.depth
    &&& a.shop_stock == b.shop_stock
}

/// The player fields other than hp, mp, gold and the backpack are unchanged.
pub open spec fn same_build(a: Player, b: Player) -> bool {
    &&& a.base_maxhp == b.base_maxhp && a.base_maxmp == b.base_maxmp
    &&& a.base_atk == b.base_atk && a.base_def == b.base_def && a.base_spd == b.base_spd
    &&& a.xp == b.xp && a.level == b.level
    &&& a.equipment == b.equipment
}

/// Resting at a campfire: full HP and MP, a rest recorded.
pub open spec fn rested(old: World, new: World, content: Content) -> bool {
    &&& new.player.hp == old.player.spec_totals(content.items@).2
    &&& new.player.mp == old.player.spec_totals(content.items@).3
    &&& new.player.gold == old.player.gold
    &&& new.player.inventory == old.player.inventory
    &&& same_build(old.player, new.player)
    &&& new.events@ == old.events@.push(GameEvent::Rest)
    &&& same_level(old, new)
    &&& stat_added(old, new, "rests"@, 1, content)
}

/// Talking to NPC type `who`: a line from them, a talk recorded.
pub open spec fn talked(old: World, new: World, content: Content, who: int, r: Interaction) -> bool {
    &&& r matches Interaction::Dialog { who: name, text } && name@ == content.npcs@[who].name@ && npc_line(content.npcs@[who].lines@, text@)
    &&& new.player == old.player
    &&& new.events == old.events
    &&& same_level(old, new)
    &&& stat_added(old, new, "talks"@, 1, content)
}

/// The items a chest at `depth` may hold: the indices of the items of at
/// most the depth's loot tier, in content order.
pub open spec fn chest_pool(items: Seq<ItemDef>, depth: int) -> Seq<int> {
    indices_where(items.map_values(|d: ItemDef| d.tier <= loot_tier(depth)))
}

/// The name shown for item `id`: its definition's name, or the id itself.
pub open spec fn shown_name(items: Seq<ItemDef>, id: Seq<char>) -> Seq<char> {
    match item_def(items, id) {
        Some(d) => d.name@,
        None => id,
    }
}

/// Opening chest `ci` with the draws `gold_roll` (gold before the depth
/// bonus), `loot_roll` (out of 100) and `pick` (a place in the chest's
/// pool): it is marked open, `gold_roll + 4*depth` gold joins the strike
/// fund, and when the loot roll is below 55 and the pool is not empty the
/// pool's item at `pick` goes into the backpack if it fits there (and is
/// named in the message when it does).
pub open spec fn chest_opened_with(
    old: World,
    new: World,
    content: Content,
    ci: int,
    r: Interaction,
    gold_roll: int,
    loot_roll: int,
    pick: int,
) -> bool {
    let gold = gold_roll + 4 * old.depth;
    let pool = chest_pool(content.items@, old.depth as int);
    let inv = stacks(old.player.inventory@);
    &&& new.player.gold == old.player.gold + gold
    &&& new.chests@ == old.chests@.update(ci, Chest { opened: true, ..old.chests@[ci] })
    &&& new.events@ == old.events@.push(GameEvent::Chest)
    &&& r matches Interaction::ChestLoot { text } && if loot_roll < 55 && pool.len() > 0 {
        let id = content.items@[pool[pick]].id@;
        &&& stacks(new.player.inventory@) == inv_add(inv, id).0
        &&& text@ == (if inv_add(inv, id).1 {
            chest_msg(gold) + ", and: "@ + shown_name(content.items@, id)
        } else {
            chest_msg(gold)
        })
    } else {
        stacks(new.player.inventory@) == inv && text@ == chest_msg(gold)
    }
    &&& new.player.hp == old.player.hp && new.player.mp == old.player.mp
    &&& same_build(old.player, new.player)
    &&& new.map == old.map && new.depth == old.depth && new.shop_stock == old.shop_stock
    &&& stat_added(old, new, "chests"@, 1, content)
}

/// Draws that a chest can come out with: gold 8 to 19, a loot roll out of
/// 100 and, when the loot roll calls for an item from a non-empty pool, a
/// place in the pool.
pub open spec fn chest_draws_ok(content: Content, depth: int, gold_roll: int, loot_roll: int, pick: int) -> bool {
    &&& 8 <= gold_roll < 20
    &&& 0 <= loot_roll < 100
    &&& (loot_roll < 55 && chest_pool(content.items@, depth).len() > 0) ==> 0 <= pick < chest_pool(content.items@, depth).len()
}

/// Opening chest `ci` (see `chest_opened_with`), for the draws that came out.
pub open spec fn chest_looted(old: World, new: World, content: Content, ci: int, r: Interaction) -> bool {
    exists|g: int, l: int, p: int|
        chest_draws_ok(content, old.depth as int, g, l, p) && #[trigger] chest_opened_with(old, new, content, ci, r, g, l, p)
}

/// Reading graffiti `gi`: its line (first reading of a line counts toward
/// the graffiti stat).
pub open spec fn graffiti_read(old: World, new: World, content: Content, gi: int, r: Interaction) -> bool {
    let idx = old.map.graffiti@[gi].text_idx as int;
    let key = seen_key(idx);
    &&& r matches Interaction::Dialog { who, text } && who@ == "Graffiti on the wall"@ && text@ == graffiti_text(content.graffiti@, idx)
    &&& new.player == old.player
    &&& new.events == old.events
    &&& same_level(old, new)
    &&& if stat_val(stat_pairs(old.stats@), key) == 0 {
        stat_added_on(stat_set(stat_pairs(old.stats@), key, 1), old, new, "graffiti"@, 1, content)
    } else {
        new.stats == old.stats && new.unlocked == old.unlocked && new.toasts == old.toasts
    }
}

/// What pressing E does, given what the application found around the
/// player: `here` is the tile under the player, `near` the tile whose
/// neighbourhood counts for campfires, `npc` the type of the nearest NPC in
/// reach, `chest` a chest in reach (one already open is passed over), `graffiti` the first
/// graffiti in reach. In that order of precedence: stairs descend, a
/// campfire rests, an NPC talks (or opens the co-op), a chest opens,
/// graffiti reads; otherwise nothing happens.
pub open spec fn interacted(
    old: World,
    new: World,
    content: Content,
    here: (i32, i32),
    near: (i32, i32),
    npc: Option<usize>,
    chest: Option<usize>,
    graffiti: Option<usize>,
    r: Interaction,
) -> bool {
    if old.map.spec_tile(here.0 as int, here.1 as int) == Tile::Stairs {
        r is Descend && new == old
    } else if campfire_near(old.map, near) {
        r is Rested && rested(old, new, content)
    } else if npc is Some {
        let who = npc->0 as int;
        if content.npcs@[who].shopkeeper && old.map.has_shop {
            r is Shop && new == old
        } else {
            talked(old, new, content, who, r)
        }
    } else if chest is Some && !old.chests@[chest->0 as int].opened {
        chest_looted(old, new, content, chest->0 as int, r)
    } else if graffiti is Some {
        graffiti_read(old, new, content, graffiti->0 as int, r)
    } else {
        r is Nothing && new == old
    }
}

impl World {
    fn rest(&mut self, content: &Content)
        requires
            old(self).player.totals_fit(content.items@),
            stat_val(stat_pairs(old(self).stats@), "rests"@) < i64::MAX,
        ensures
            rested(*old(self), *final(self), *content),
    {
        let (_, _, maxhp, maxmp, _) = self.player.totals(content);
        self.player.hp = maxhp;
        self.player.mp = maxmp;
        self.events.push(GameEvent::Rest);
        proof { lemma_stat_range(self.stats@, "rests"@); }
        self.add_stat("rests", 1, content);
    }

    fn talk(&mut self, who: usize, content: &Content) -> (r: Interaction)
        requires
            who < content.npcs@.len(),
            content.npcs@[who as int].lines@.len() <= i32::MAX,
            stat_val(stat_pairs(old(self).stats@), "talks"@) < i64::MAX,
        ensures
            talked(*old(self), *final(self), *content, who as int, r),
    {
        let def = &content.npcs[who];
        let line = if def.lines.len() == 0 {
            String::from_str("Solidarity, friend.")
        } else {
            pick_line(&def.lines)
        };
        proof { lemma_stat_range(self.stats@, "talks"@); }
        self.add_stat("talks", 1, content);
        Interaction::Dialog { who: def.name.clone(), text: line }
    }

    fn open_chest(&mut self, ci: usize, content: &Content) -> (r: Interaction)
        requires
            ci < old(self).chests@.len(),
            content.items@.len() <= i32::MAX,
            i32::MIN <= 4 * old(self).depth && 4 * old(self).depth + 19 <= i32::MAX,
            old(self).player.gold + 20 + 4 * old(self).depth <= i64::MAX,
            old(self).player.gold + 8 + 4 * old(self).depth >= i64::MIN,
            forall|i: int| 0 <= i < old(self).player.inventory@.len() ==> (#[trigger] old(self).player.inventory@[i]).qty < i32::MAX,
            stat_val(stat_pairs(old(self).stats@), "chests"@) < i64::MAX,
        ensures
            chest_looted(*old(self), *final(self), *content, ci as int, r),
    {
        let gold_roll = gen_range(8, 20);
        let loot_roll = gen_range(0, 100);
        let mut pick: usize = 0;
        if loot_roll < 55 {
            let max_tier = 1 + self.depth / 2;
            let pool = content.items_up_to_tier(max_tier);
            proof {
                let flags = content.items@.map_values(|d: ItemDef| d.tier <= max_tier);
                lemma_indices_where_bound(flags);
                assert(flags =~= content.items@.map_values(|d: ItemDef| d.tier <= loot_tier(self.depth as int)));
                assert(pool@.len() == chest_pool(content.items@, self.depth as int).len());
            }
            if pool.len() > 0 {
                pick = gen_range(0, pool.len() as i32) as usize;
            }
        }
        let r = self.open_chest_with(ci, content, gold_roll, loot_roll, pick);
        assert(chest_draws_ok(*content, old(self).depth as int, gold_roll as int, loot_roll as int, pick as int));
        r
    }

    /// Opens chest `ci` with the given draws (see `chest_opened_with`).
    pub fn open_chest_with(&mut self, ci: usize, content: &Content, gold_roll: i32, loot_roll: i32, pick: usize) -> (r: Interaction)
        requires
            ci < old(self).chests@.len(),
            content.items@.len() <= i32::MAX,
            chest_draws_ok(*content, old(self).depth as int, gold_roll as int, loot_roll as int, pick as int),
            i32::MIN <= 4 * old(self).depth && 4 * old(self).depth + 19 <= i32::MAX,
            old(self).player.gold + 20 + 4 * old(self).depth <= i64::MAX,
            old(self).player.gold + 8 + 4 * old(self).depth >= i64::MIN,
            forall|i: int| 0 <= i < old(self).player.inventory@.len() ==> (#[trigger] old(self).player.inventory@[i]).qty < i32::MAX,
            stat_val(stat_pairs(old(self).stats@), "chests"@) < i64::MAX,
        ensures
            chest_opened_with(*old(self), *final(self), *content, ci as int, r, gold_roll as int, loot_roll as int, pick as int),
    {
        let c = self.chests[ci];
        self.chests.set(ci, Chest { opened: true, ..c });
        self.events.push(GameEvent::Chest);
        let gold: i64 = (gold_roll + self.depth * 4) as i64;
        self.player.gold = self.player.gold + gold;
        let mut text = String::from_str("+");
        push_int(&mut text, gold);
        push_str(&mut text, " gold for the strike fund");
        let ghost base = text@;
        let ghost inv0 = stacks(self.player.inventory@);
        assert(base == chest_msg(gold as int));
        if loot_roll < 55 {
            let max_tier = 1 + self.depth / 2;
            let pool = content.items_up_to_tier(max_tier);
            let ghost flags = content.items@.map_values(|d: ItemDef| d.tier <= max_tier);
            proof {
                lemma_indices_where_bound(flags);
                assert(flags =~= content.items@.map_values(|d: ItemDef| d.tier <= loot_tier(old(self).depth as int)));
            }
            if pool.len() > 0 {
                let j = pool[pick];
                assert(as_ints(pool@)[pick as int] == j as int);
                assert(flags[j as int]);
                let id = content.items[j].id.as_str();
                if self.player.add_item(id) {
                    let name = match content.item(id) {
                        Some(d) => d.name.clone(),
                        None => String::from_str(id),
                    };
                    push_str(&mut text, ", and: ");
                    push_str(&mut text, name.as_str());
                    assert(text@ == chest_msg(gold as int) + ", and: "@ + shown_name(content.items@, content.items@[j as int].id@));
                }
            }
        }
        proof { lemma_stat_range(self.stats@, "chests"@); }
        let ghost before_stat = *self;
        self.add_stat("chests", 1, content);
        assert(self.player == before_stat.player);
        Interaction::ChestLoot { text }
    }

    fn read_graffiti(&mut self, gi: usize, content: &Content) -> (r: Interaction)
        requires
            gi < old(self).map.graffiti@.len(),
            stat_val(stat_pairs(old(self).stats@), "graffiti"@) < i64::MAX,
        ensures
            graffiti_read(*old(self), *final(self), *content, gi as int, r),
    {
        let idx = self.map.graffiti[gi].text_idx;
        let text = if idx < content.graffiti.len() {
            content.graffiti[idx].clone()
        } else {
            String::from_str("SOLIDARITY")
        };
        let mut key = String::from_str("graffiti_seen_");
        push_nat(&mut key, idx as u64);
        if self.stat(key.as_str()) == 0 {
            let ghost k = key@;
            proof {
                reveal_strlit("graffiti_seen_");
                reveal_strlit("graffiti");
                assert(k.len() >= 14);
                assert(k != "graffiti"@);
                lemma_stat_set_other(stat_pairs(self.stats@), k, 1, "graffiti"@);
            }
            self.set_stat(key, 1);
            proof { lemma_stat_range(self.stats@, "graffiti"@); }
            self.add_stat("graffiti", 1, content);
        }
        Interaction::Dialog { who: String::from_str("Graffiti on the wall"), text }
    }
}

impl World {
    /// What pressing E does (see `interacted`). The application works out
    /// from positions what is in reach and passes it in.
    pub fn interact(
        &mut self,
        content: &Content,
        here: (i32, i32),
        near: (i32, i32),
        npc: Option<usize>,
        chest: Option<usize>,
        graffiti: Option<usize>,
    ) -> (r: Interaction)
        requires
            old(self).map.wf(),
            i32::MIN < near.0 < i32::MAX,
            i32::MIN < near.1 < i32::MAX,
            campfire_near(old(self).map, near) ==> old(self).player.totals_fit(content.items@)
                && stat_val(stat_pairs(old(self).stats@), "rests"@) < i64::MAX,
            npc matches Some(w) ==> w < content.npcs@.len() && content.npcs@[w as int].lines@.len() <= i32::MAX
                && stat_val(stat_pairs(old(self).stats@), "talks"@) < i64::MAX,
            chest matches Some(ci) ==> {
                &&& ci < old(self).chests@.len()
                &&& content.items@.len() <= i32::MAX
                &&& i32::MIN <= 4 * old(self).depth && 4 * old(self).depth + 19 <= i32::MAX
                &&& old(self).player.gold + 20 + 4 * old(self).depth <= i64::MAX
                &&& old(self).player.gold + 8 + 4 * old(self).depth >= i64::MIN
                &&& forall|i: int| 0 <= i < old(self).player.inventory@.len() ==> (#[trigger] old(self).player.inventory@[i]).qty < i32::MAX
                &&& stat_val(stat_pairs(old(self).stats@), "chests"@) < i64::MAX
            },
            graffiti matches Some(gi) ==> gi < old(self).map.graffiti@.len()
                && stat_val(stat_pairs(old(self).stats@), "graffiti"@) < i64::MAX,
        ensures
            interacted(*old(self), *final(self), *content, here, near, npc, chest, graffiti, r),
    {
        if self.map.tile(here.0, here.1) == Tile::Stairs {
            return Interaction::Descend;
        }
        if self.campfire_near(near) {
            self.rest(content);
            return Interaction::Rested;
        }
        if let Some(who) = npc {
            if content.npcs[who].shopkeeper && self.map.has_shop {
                return Interaction::Shop;
            }
            return self.talk(who, content);
        }
        if let Some(ci) = chest {
            if !self.chests[ci].opened {
                return self.open_chest(ci, content);
            }
        }
        if let Some(gi) = graffiti {
            return self.read_graffiti(gi, content);
        }
        Interaction::Nothing
    }
}

/// The prompt shown for what E would do, given what the application found
/// around the player (as for `interacted`; here `npc` is the type of the
/// first NPC in reach and `chest`/`graffiti` whether one is in reach).
pub open spec fn hint(
    w: World,
    content: Content,
    here: (i32, i32),
    near: (i32, i32),
    npc: Option<usize>,
    chest: bool,
    graffiti: bool,
) -> Option<Seq<char>> {
    if w.map.spec_tile(here.0 as int, here.1 as int) == Tile::Stairs {
        Some("[E] Descend deeper"@)
    } else if campfire_near(w.map, near) {
        Some("[E] Rest by the fire (free, always)"@)
    } else if npc is Some {
        let d = content.npcs@[npc->0 as int];
        if d.shopkeeper && w.map.has_shop {
            Some("[E] Browse the co-op ("@ + d.name@ + ")"@)
        } else {
            Some("[E] Talk to "@ + d.name@)
        }
    } else if chest {
        Some("[E] Open chest"@)
    } else if graffiti {
        Some("[E] Read the writing on the wall"@)
    } else {
        None
    }
}

/// The prompt for what E would do (see `hint`).
pub fn interaction_hint(
    world: &World,
    content: &Content,
    here: (i32, i32),
    near: (i32, i32),
    npc: Option<usize>,
    chest: bool,
    graffiti: bool,
) -> (r: Option<String>)
    requires
        world.map.wf(),
        i32::MIN < near.0 < i32::MAX,
        i32::MIN < near.1 < i32::MAX,
        npc matches Some(i) ==> i < content.npcs@.len(),
    ensures
        match r {
            Some(s) => hint(*world, *content, here, near, npc, chest, graffiti) == Some(s@),
            None => hint(*world, *content, here, near, npc, chest, graffiti) is None,
        },
{
    if world.map.tile(here.0, here.1) == Tile::Stairs {
        return Some(String::from_str("[E] Descend deeper"));
    }
    if world.campfire_near(near) {
        return Some(String::from_str("[E] Rest by the fire (free, always)"));
    }
    if let Some(i) = npc {
        let d = &content.npcs[i];
        if d.shopkeeper && world.map.has_shop {
            let mut s = String::from_str("[E] Browse the co-op (");
            push_str(&mut s, d.name.as_str());
            push_str(&mut s, ")");
            return Some(s);
        }
        return Some(message("[E] Talk to ", d.name.as_str()));
    }
    if chest {
        return Some(String::from_str("[E] Open chest"));
    }
    if graffiti {
        return Some(String::from_str("[E] Read the writing on the wall"));
    }
    None
}

// ---------- gear, the backpack and the co-op ----------

/// Equipment as (slot, item id) pairs.
pub open spec fn gear(eq: Seq<(String, String)>) -> Seq<(Seq<char>, Seq<char>)> {
    eq.map_values(|e: (String, String)| (e.0@, e.1@))
}

pub open spec fn gear_slots(g: Seq<(Seq<char>, Seq<char>)>) -> Seq<Seq<char>> {
    g.map_values(|e: (Seq<char>, Seq<char>)| e.0)
}

/// The item worn in `slot`, if any.
pub open spec fn worn(g: Seq<(Seq<char>, Seq<char>)>, slot: Seq<char>) -> Option<Seq<char>> {
    let k = lookup(gear_slots(g), slot);
    if k >= 0 { Some(g[k].1) } else { None }
}

/// Equipment after putting `id` in `slot` (replacing what was there).
pub open spec fn wear(g: Seq<(Seq<char>, Seq<char>)>, slot: Seq<char>, id: Seq<char>) -> Seq<(Seq<char>, Seq<char>)> {
    let k = lookup(gear_slots(g), slot);
    if k >= 0 { g.update(k, (slot, id)) } else { g.push((slot, id)) }
}

/// Equipment after emptying `slot`.
pub open spec fn take_off(g: Seq<(Seq<char>, Seq<char>)>, slot: Seq<char>) -> Seq<(Seq<char>, Seq<char>)> {
    let k = lookup(gear_slots(g), slot);
    if k >= 0 { g.remove(k) } else { g }
}

/// The name an item goes by: its definition's name, else its id.
pub open spec fn item_name(items: Seq<ItemDef>, id: Seq<char>) -> Seq<char> {
    match item_def(items, id) {
        Some(d) => d.name@,
        None => id,
    }
}

pub open spec fn min_int(a: int, b: int) -> int {
    if a < b { a } else { b }
}

/// The player's build other than the gear is unchanged.
pub open spec fn same_build_but_gear(a: Player, b: Player) -> bool {
    &&& a.base_maxhp == b.base_maxhp && a.base_maxmp == b.base_maxmp
    &&& a.base_atk == b.base_atk && a.base_def == b.base_def && a.base_spd == b.base_spd
    &&& a.xp == b.xp && a.level == b.level
}

/// Only the backpack and the toasts may have changed (and stats, through `stat_added`).
pub open spec fn same_but_pack(a: World, b: World) -> bool {
    &&& same_level(a, b)
    &&& a.events == b.events
}

pub open spec fn stack_room(p: Player) -> bool {
    forall|i: int| 0 <= i < p.inventory@.len() ==> (#[trigger] p.inventory@[i]).qty < i32::MAX
}

pub open spec fn stack_floor(p: Player) -> bool {
    forall|i: int| 0 <= i < p.inventory@.len() ==> (#[trigger] p.inventory@[i]).qty > i32::MIN
}

/// The profile after toasting (ending with queue `q`) and then adding
/// `amount` to stat `key`, which checks achievements.
pub open spec fn profile_after(old: World, new: World, content: Content, q: Seq<(Seq<char>, int)>, key: Seq<char>, amount: int) -> bool {
    let st = stat_set(stat_pairs(old.stats@), key, stat_val(stat_pairs(old.stats@), key) + amount);
    &&& stat_pairs(new.stats@) == st
    &&& names(new.unlocked@) == checked(content.achievements@, st, names(old.unlocked@), q).0
    &&& toast_view(new.toasts@) == checked(content.achievements@, st, names(old.unlocked@), q).1
}

/// Using or equipping backpack stack `idx`: gear goes on (what was in the
/// slot goes back into the pack) and the equip is counted; a consumable
/// heals and restores mana, capped at the maxima; anything else, or an
/// empty slot, does nothing.
pub open spec fn used_or_equipped(old: World, new: World, content: Content, idx: int) -> bool {
    let inv = stacks(old.player.inventory@);
    if !(0 <= idx < inv.len()) || item_def(content.items@, inv[idx].0) is None {
        new == old
    } else {
        let id = inv[idx].0;
        let d = item_def(content.items@, id)->0;
        let after_take = inv_remove(inv, idx);
        if crate::content::equip_kind(d.kind@) {
            let prev = worn(gear(old.player.equipment@), d.kind@);
            &&& gear(new.player.equipment@) == wear(gear(old.player.equipment@), d.kind@, id)
            &&& stacks(new.player.inventory@) == (match prev {
                Some(p) => inv_add(after_take, p).0,
                None => after_take,
            })
            &&& new.player.hp == old.player.hp && new.player.mp == old.player.mp
            &&& profile_after(old, new, content, toast_push(toast_view(old.toasts@), "Equipped: "@ + d.name@), "equips"@, 1)
        } else if d.kind@ == "potion"@ {
            &&& new.player.hp == min_int(old.player.hp + d.heal, old.player.spec_totals(content.items@).2)
            &&& new.player.mp == min_int(old.player.mp + d.mana, old.player.spec_totals(content.items@).3)
            &&& stacks(new.player.inventory@) == after_take
            &&& new.player.equipment == old.player.equipment
            &&& toast_view(new.toasts@) == toast_push(toast_view(old.toasts@), "Used: "@ + d.name@)
            &&& new.stats == old.stats && new.unlocked == old.unlocked
        } else {
            new == old
        }
    }
}

/// Every stack of a backpack view below the quantity limit.
pub open spec fn room(v: Seq<(Seq<char>, int)>) -> bool {
    forall|i: int| 0 <= i < v.len() ==> (#[trigger] v[i]).1 < i32::MAX
}

proof fn lemma_room_stacks(inv: Seq<ItemStack>)
    ensures
        room(stacks(inv)) <==> forall|i: int| 0 <= i < inv.len() ==> (#[trigger] inv[i]).qty < i32::MAX,
{
    let v = stacks(inv);
    if room(v) {
        assert forall|i: int| 0 <= i < inv.len() implies (#[trigger] inv[i]).qty < i32::MAX by {
            assert(v[i].1 == inv[i].qty);
        }
    }
    if forall|i: int| 0 <= i < inv.len() ==> (#[trigger] inv[i]).qty < i32::MAX {
        assert forall|i: int| 0 <= i < v.len() implies (#[trigger] v[i]).1 < i32::MAX by {
            assert(v[i].1 == inv[i].qty);
        }
    }
}

proof fn lemma_room_after_remove(v: Seq<(Seq<char>, int)>, idx: int)
    requires
        room(v),
    ensures
        room(inv_remove(v, idx)),
{
    let w = inv_remove(v, idx);
    assert forall|i: int| 0 <= i < w.len() implies (#[trigger] w[i]).1 < i32::MAX by {
        if 0 <= idx < v.len() && v[idx].1 - 1 <= 0 {
            if i >= idx {
                assert(w[i] == v[i + 1]);
            } else {
                assert(w[i] == v[i]);
            }
        } else if 0 <= idx < v.len() {
            if i != idx {
                assert(w[i] == v[i]);
            }
        }
    }
}

pub(crate) fn wear_exec(eq: &mut Vec<(String, String)>, slot: String, id: String) -> (prev: Option<String>)
    ensures
        gear(final(eq)@) == wear(gear(old(eq)@), slot@, id@),
        match prev {
            Some(p) => worn(gear(old(eq)@), slot@) == Some(p@),
            None => worn(gear(old(eq)@), slot@) is None,
        },
{
    let ghost g = gear(eq@);
    let ghost ks = gear_slots(g);
    let mut i: usize = 0;
    while i < eq.len()
        invariant
            i <= eq@.len(),
            g == gear(eq@),
            ks == gear_slots(g),
            *eq == *old(eq),
            forall|j: int| 0 <= j < i ==> ks[j] != slot@,
        decreases eq@.len() - i,
    {
        if eq[i].0 == slot {
            proof { lemma_lookup(ks, slot@, i as int); }
            let p = eq[i].1.clone();
            let ghost sv = slot@;
            let ghost iv = id@;
            eq.set(i, (slot, id));
            assert(gear(eq@) =~= g.update(i as int, (sv, iv)));
            return Some(p);
        }
        i = i + 1;
    }
    proof { lemma_lookup(ks, slot@, i as int); }
    let ghost sv = slot@;
    let ghost iv = id@;
    eq.push((slot, id));
    assert(gear(eq@) =~= g.push((sv, iv)));
    None
}

pub(crate) fn take_off_exec(eq: &mut Vec<(String, String)>, slot: &str) -> (prev: Option<String>)
    ensures
        gear(final(eq)@) == take_off(gear(old(eq)@), slot@),
        match prev {
            Some(p) => worn(gear(old(eq)@), slot@) == Some(p@),
            None => worn(gear(old(eq)@), slot@) is None,
        },
{
    let key = String::from_str(slot);
    let ghost g = gear(eq@);
    let ghost ks = gear_slots(g);
    let mut i: usize = 0;
    while i < eq.len()
        invariant
            i <= eq@.len(),
            g == gear(eq@),
            ks == gear_slots(g),
            key@ == slot@,
            *eq == *old(eq),
            forall|j: int| 0 <= j < i ==> ks[j] != slot@,
        decreases eq@.len() - i,
    {
        if eq[i].0 == key {
            proof { lemma_lookup(ks, slot@, i as int); }
            let (_, p) = eq.remove(i);
            assert(gear(eq@) =~= g.remove(i as int));
            return Some(p);
        }
        i = i + 1;
    }
    proof { lemma_lookup(ks, slot@, i as int); }
    None
}

pub(crate) fn worn_exec(eq: &Vec<(String, String)>, slot: &str) -> (r: Option<String>)
    ensures
        match r {
            Some(p) => worn(gear(eq@), slot@) == Some(p@),
            None => worn(gear(eq@), slot@) is None,
        },
{
    let key = String::from_str(slot);
    let ghost g = gear(eq@);
    let ghost ks = gear_slots(g);
    let mut i: usize = 0;
    while i < eq.len()
        invariant
            i <= eq@.len(),
            g == gear(eq@),
            ks == gear_slots(g),
            key@ == slot@,
            forall|j: int| 0 <= j < i ==> ks[j] != slot@,
        decreases eq@.len() - i,
    {
        if eq[i].0 == key {
            proof { lemma_lookup(ks, slot@, i as int); }
            return Some(eq[i].1.clone());
        }
        i = i + 1;
    }
    proof { lemma_lookup(ks, slot@, i as int); }
    None
}

pub(crate) fn name_of(content: &Content, id: &str) -> (n: String)
    ensures
        n@ == item_name(content.items@, id@),
{
    match content.item(id) {
        Some(d) => d.name.clone(),
        None => String::from_str(id),
    }
}

pub(crate) fn message(a: &str, b: &str) -> (m: String)
    ensures
        m@ == a@ + b@,
{
    let mut m = String::from_str(a);
    push_str(&mut m, b);
    m
}

impl World {
    /// Uses or equips backpack stack `idx` (see `used_or_equipped`).
    pub fn use_or_equip(&mut self, content: &Content, idx: usize)
        requires
            stack_room(old(self).player),
            stack_floor(old(self).player),
            old(self).player.totals_fit(content.items@),
            idx < old(self).player.inventory@.len() && item_def(content.items@, old(self).player.inventory@[idx as int].id@) is Some ==> {
                let d = item_def(content.items@, old(self).player.inventory@[idx as int].id@)->0;
                &&& fits_i32(old(self).player.hp + d.heal)
                &&& fits_i32(old(self).player.mp + d.mana)
                &&& stat_val(stat_pairs(old(self).stats@), "equips"@) < i64::MAX
            },
        ensures
            used_or_equipped(*old(self), *final(self), *content, idx as int),
            same_but_pack(*old(self), *final(self)),
            same_build_but_gear(old(self).player, final(self).player),
            final(self).player.gold == old(self).player.gold,
    {
        if idx >= self.inventory_len() {
            return;
        }
        let id = self.player.inventory[idx].id.clone();
        let def = match content.item(id.as_str()) {
            Some(d) => d,
            None => { return; },
        };
        if def.is_equippable() {
            let ghost inv0 = stacks(self.player.inventory@);
            self.player.remove_item(idx);
            proof {
                lemma_room_stacks(old(self).player.inventory@);
                lemma_room_after_remove(inv0, idx as int);
                lemma_room_stacks(self.player.inventory@);
            }
            let prev = wear_exec(&mut self.player.equipment, def.kind.clone(), id);
            if let Some(p) = prev {
                self.player.add_item(p.as_str());
            }
            let msg = message("Equipped: ", def.name.as_str());
            self.toast(msg);
            proof { lemma_stat_range(self.stats@, "equips"@); }
            self.add_stat("equips", 1, content);
        } else if def.is_usable() {
            let (_, _, maxhp, maxmp, _) = self.player.totals(content);
            let hp = self.player.hp + def.heal;
            let mp = self.player.mp + def.mana;
            self.player.hp = if hp < maxhp { hp } else { maxhp };
            self.player.mp = if mp < maxmp { mp } else { maxmp };
            self.player.remove_item(idx);
            let msg = message("Used: ", def.name.as_str());
            self.toast(msg);
        }
    }

    fn inventory_len(&self) -> (n: usize)
        ensures
            n == self.player.inventory@.len(),
    {
        self.player.inventory.len()
    }
}

// ---------- what every operation keeps ----------

/// Picking up keeps a tidy backpack tidy: within capacity, no empty stack,
/// one stack per item.
pub proof fn lemma_add_keeps_tidy(inv: Seq<(Seq<char>, int)>, id: Seq<char>)
    requires
        inv_wf(inv),
    ensures
        inv_wf(inv_add(inv, id).0),
{
    let ids = stack_ids(inv);
    lemma_lookup_range(ids, id);
    let k = lookup(ids, id);
    let out = inv_add(inv, id).0;
    if k >= 0 {
        assert forall|i: int, j: int| 0 <= i < out.len() && 0 <= j < out.len() && i != j implies (#[trigger] out[i]).0
            != (#[trigger] out[j]).0 by {
            assert(out[i].0 == inv[i].0 && out[j].0 == inv[j].0);
        }
    } else if inv.len() < INV_CAP {
        assert forall|i: int, j: int| 0 <= i < out.len() && 0 <= j < out.len() && i != j implies (#[trigger] out[i]).0
            != (#[trigger] out[j]).0 by {
            if i < inv.len() && j < inv.len() {
                assert(out[i] == inv[i] && out[j] == inv[j]);
            } else if i < inv.len() {
                assert(ids[i] == inv[i].0);
            } else {
                assert(ids[j] == inv[j].0);
            }
        }
    }
}

/// Taking an item out keeps a tidy backpack tidy.
pub proof fn lemma_remove_keeps_tidy(inv: Seq<(Seq<char>, int)>, idx: int)
    requires
        inv_wf(inv),
    ensures
        inv_wf(inv_remove(inv, idx)),
{
    let out = inv_remove(inv, idx);
    if 0 <= idx < inv.len() {
        if inv[idx].1 - 1 <= 0 {
            assert forall|i: int| 0 <= i < out.len() implies (#[trigger] out[i]).1 >= 1 by {
                if i < idx { assert(out[i] == inv[i]); } else { assert(out[i] == inv[i + 1]); }
            }
            assert forall|i: int, j: int| 0 <= i < out.len() && 0 <= j < out.len() && i != j implies (#[trigger] out[i]).0
                != (#[trigger] out[j]).0 by {
                let a = if i < idx { i } else { i + 1 };
                let b = if j < idx { j } else { j + 1 };
                assert(out[i] == inv[a] && out[j] == inv[b]);
            }
        } else {
            assert forall|i: int| 0 <= i < out.len() implies (#[trigger] out[i]).1 >= 1 by {
                if i != idx { assert(out[i] == inv[i]); }
            }
            assert forall|i: int, j: int| 0 <= i < out.len() && 0 <= j < out.len() && i != j implies (#[trigger] out[i]).0
                != (#[trigger] out[j]).0 by {
                assert(out[i].0 == inv[i].0 && out[j].0 == inv[j].0);
            }
        }
    }
}

/// Taking back out of the stack an item just went into gives the backpack
/// back as it was.
pub proof fn lemma_add_then_remove(inv: Seq<(Seq<char>, int)>, id: Seq<char>)
    requires
        inv_wf(inv),
        inv_add(inv, id).1,
    ensures
        inv_remove(inv_add(inv, id).0, lookup(stack_ids(inv_add(inv, id).0), id)) == inv,
{
    let ids = stack_ids(inv);
    lemma_lookup_range(ids, id);
    let k = lookup(ids, id);
    let out = inv_add(inv, id).0;
    let ids2 = stack_ids(out);
    if k >= 0 {
        assert(ids2 =~= ids);
        assert(out.update(k, (inv[k].0, out[k].1 - 1)) =~= inv);
    } else {
        assert(ids2 =~= ids.push(id));
        assert forall|j: int| 0 <= j < inv.len() implies ids2[j] != id by {
            assert(ids2[j] == ids[j]);
        }
        lemma_lookup(ids2, id, inv.len() as int);
        assert(out.remove(inv.len() as int) =~= inv);
    }
}

/// The toast queue never holds more than `MAX_TOASTS` toasts.
pub proof fn lemma_toasts_bounded(q: Seq<(Seq<char>, int)>, msgs: Seq<Seq<char>>, t: Seq<char>)
    requires
        q.len() <= MAX_TOASTS,
    ensures
        toast_push(q, t).len() <= MAX_TOASTS,
        push_all(q, msgs).len() <= MAX_TOASTS,
{
    lemma_toast_len(q, msgs);
}

/// Checking achievements never takes one away: what was unlocked stays
/// unlocked, in place, and newly unlocked ones follow.
pub proof fn lemma_achievements_kept(
    achs: Seq<AchievementDef>,
    stats: Seq<(Seq<char>, int)>,
    unl: Seq<Seq<char>>,
    k: int,
)
    ensures
        ach_pass(achs, stats, unl, k).0.len() >= unl.len(),
        ach_pass(achs, stats, unl, k).0.subrange(0, unl.len() as int) == unl,
    decreases k,
{
    if k > 0 {
        lemma_achievements_kept(achs, stats, unl, k - 1);
        let prev = ach_pass(achs, stats, unl, k - 1).0;
        assert(prev.push(achs[k - 1].id@).subrange(0, unl.len() as int) =~= prev.subrange(0, unl.len() as int));
    }
}

/// After a check, every achievement among the first `k` whose stat has
/// reached its threshold is unlocked.
pub proof fn lemma_achievements_earned(
    achs: Seq<AchievementDef>,
    stats: Seq<(Seq<char>, int)>,
    unl: Seq<Seq<char>>,
    k: int,
    i: int,
)
    requires
        0 <= i < k <= achs.len(),
        stat_val(stats, achs[i].stat@) >= achs[i].threshold,
    ensures
        ach_pass(achs, stats, unl, k).0.contains(achs[i].id@),
    decreases k,
{
    let prev = ach_pass(achs, stats, unl, k - 1).0;
    if i < k - 1 {
        lemma_achievements_earned(achs, stats, unl, k - 1, i);
        let w = choose|x: int| 0 <= x < prev.len() && prev[x] == achs[i].id@;
        if !prev.contains(achs[k - 1].id@) && stat_val(stats, achs[k - 1].stat@) >= achs[k - 1].threshold {
            assert(prev.push(achs[k - 1].id@)[w] == achs[i].id@);
        }
    } else {
        if !prev.contains(achs[k - 1].id@) {
            assert(prev.push(achs[k - 1].id@)[prev.len() as int] == achs[i].id@);
        }
    }
}

/// Raising a stat to a value never lowers it: it ends at the larger of the
/// two, and no other stat moves.
pub proof fn lemma_bump_never_lowers(s: Seq<(Seq<char>, int)>, key: Seq<char>, value: int, other: Seq<char>)
    ensures
        stat_val(stat_set(s, key, if value > stat_val(s, key) { value } else { stat_val(s, key) }), key) >= stat_val(s, key),
        stat_val(stat_set(s, key, if value > stat_val(s, key) { value } else { stat_val(s, key) }), key) >= value,
        other != key ==> stat_val(stat_set(s, key, if value > stat_val(s, key) { value } else { stat_val(s, key) }), other)
            == stat_val(s, other),
{
    let v = if value > stat_val(s, key) { value } else { stat_val(s, key) };
    lemma_stat_set_same(s, key, v);
    if other != key {
        lemma_stat_set_other(s, key, v, other);
    }
}

/// A stat reads back what was set.
pub proof fn lemma_stat_set_same(s: Seq<(Seq<char>, int)>, key: Seq<char>, v: int)
    ensures
        stat_val(stat_set(s, key, v), key) == v,
{
    let ks = pair_keys(s);
    lemma_lookup_range(ks, key);
    let k = lookup(ks, key);
    let s2 = stat_set(s, key, v);
    let ks2 = pair_keys(s2);
    if k >= 0 {
        assert(ks2 =~= ks.update(k, key));
        assert forall|j: int| 0 <= j < k implies ks2[j] != key by {
            lemma_lookup_first(ks, key, j);
        }
        lemma_lookup(ks2, key, k);
    } else {
        assert(ks2 =~= ks.push(key));
        assert forall|j: int| 0 <= j < ks.len() implies ks2[j] != key by {}
        lemma_lookup(ks2, key, ks.len() as int);
    }
}


/// The profile only grows from `old` to `new`: no stat falls, and every
/// achievement unlocked stays unlocked in its place.
pub open spec fn profile_grows(old: World, new: World) -> bool {
    &&& forall|k: Seq<char>| #[trigger] stat_val(stat_pairs(new.stats@), k) >= stat_val(stat_pairs(old.stats@), k)
    &&& names(new.unlocked@).len() >= names(old.unlocked@).len()
    &&& names(new.unlocked@).subrange(0, names(old.unlocked@).len() as int) == names(old.unlocked@)
}

/// Adding a non-negative amount to a stat (as every counter of the game
/// does) lets the profile only grow.
pub proof fn lemma_add_grows_profile(old: World, new: World, key: Seq<char>, amount: int, content: Content)
    requires
        stat_added(old, new, key, amount, content),
        amount >= 0,
    ensures
        profile_grows(old, new),
{
    let s = stat_pairs(old.stats@);
    let v = stat_val(s, key) + amount;
    assert forall|k: Seq<char>| #[trigger] stat_val(stat_pairs(new.stats@), k) >= stat_val(s, k) by {
        if k == key {
            lemma_stat_set_same(s, key, v);
        } else {
            lemma_stat_set_other(s, key, v, k);
        }
    }
    lemma_achievements_kept(content.achievements@, stat_set(s, key, v), names(old.unlocked@), content.achievements@.len() as int);
}

/// Raising a stat to at least `value` lets the profile only grow, and the
/// stat ends at least at `value`: the gold stat covers the gold carried
/// once it is raised to it.
pub proof fn lemma_bump_grows_profile(old: World, new: World, key: Seq<char>, value: int, content: Content)
    requires
        stat_pairs(new.stats@) == stat_set(stat_pairs(old.stats@), key,
            if value > stat_val(stat_pairs(old.stats@), key) { value } else { stat_val(stat_pairs(old.stats@), key) }),
        names(new.unlocked@) == checked(content.achievements@, stat_pairs(new.stats@), names(old.unlocked@), toast_view(old.toasts@)).0,
    ensures
        profile_grows(old, new),
        stat_val(stat_pairs(new.stats@), key) >= value,
{
    let s = stat_pairs(old.stats@);
    assert forall|k: Seq<char>| #[trigger] stat_val(stat_pairs(new.stats@), k) >= stat_val(s, k) by {
        lemma_bump_never_lowers(s, key, value, k);
    }
    lemma_bump_never_lowers(s, key, value, key);
    lemma_achievements_kept(content.achievements@, stat_pairs(new.stats@), names(old.unlocked@), content.achievements@.len() as int);
}

/// The profile growing is transitive, so over a whole frame of such steps
/// no stat falls and no achievement is lost.
pub proof fn lemma_profile_grows_trans(a: World, b: World, c: World)
    requires
        profile_grows(a, b),
        profile_grows(b, c),
    ensures
        profile_grows(a, c),
{
    let ua = names(a.unlocked@);
    let ub = names(b.unlocked@);
    let uc = names(c.unlocked@);
    assert forall|k: Seq<char>| #[trigger] stat_val(stat_pairs(c.stats@), k) >= stat_val(stat_pairs(a.stats@), k) by {
        assert(stat_val(stat_pairs(b.stats@), k) >= stat_val(stat_pairs(a.stats@), k));
    }
    assert(uc.subrange(0, ua.len() as int) =~= ub.subrange(0, ua.len() as int)) by {
        assert forall|i: int| 0 <= i < ua.len() implies uc[i] == ub[i] by {
            assert(uc.subrange(0, ub.len() as int)[i] == ub[i]);
        }
    }
}

/// Raising stat `key` to at least `value` and checking achievements (what
/// `bump_stat_max` does to the profile).
pub open spec fn stat_bumped(old: World, new: World, key: Seq<char>, value: int, content: Content) -> bool {
    let s = stat_pairs(old.stats@);
    &&& stat_pairs(new.stats@) == stat_set(s, key, if value > stat_val(s, key) { value } else { stat_val(s, key) })
    &&& names(new.unlocked@) == checked(content.achievements@, stat_pairs(new.stats@), names(old.unlocked@), toast_view(old.toasts@)).0
}

/// One step of a frame as far as the profile goes: a counter raised by a
/// non-negative amount, a stat raised to at least some value, or a step
/// that leaves the stats and achievements alone.
pub open spec fn profile_step(old: World, new: World, content: Content) -> bool {
    ||| exists|key: Seq<char>, amount: int| amount >= 0 && #[trigger] stat_added(old, new, key, amount, content)
    ||| exists|key: Seq<char>, value: int| #[trigger] stat_bumped(old, new, key, value, content)
    ||| new.stats == old.stats && new.unlocked == old.unlocked
}

/// Over the steps of a frame no stat falls and no achievement is lost.
pub proof fn lemma_frame_profile(ws: Seq<World>, content: Content)
    requires
        ws.len() >= 1,
        forall|i: int| 0 <= i < ws.len() - 1 ==> #[trigger] profile_step(ws[i], ws[i + 1], content),
    ensures
        profile_grows(ws[0], ws.last()),
    decreases ws.len(),
{
    if ws.len() == 1 {
        let u = names(ws[0].unlocked@);
        assert(u.subrange(0, u.len() as int) =~= u);
    } else {
        let front = ws.drop_last();
        assert forall|i: int| 0 <= i < front.len() - 1 implies #[trigger] profile_step(front[i], front[i + 1], content) by {
            assert(profile_step(ws[i], ws[i + 1], content));
        }
        lemma_frame_profile(front, content);
        let a = ws[ws.len() - 2];
        let b = ws.last();
        assert(profile_step(ws[ws.len() - 2], ws[ws.len() - 2 + 1], content));
        assert(front.last() == a);
        if exists|key: Seq<char>, amount: int| amount >= 0 && #[trigger] stat_added(a, b, key, amount, content) {
            let (key, amount) = choose|key: Seq<char>, amount: int| amount >= 0 && #[trigger] stat_added(a, b, key, amount, content);
            lemma_add_grows_profile(a, b, key, amount, content);
        } else if exists|key: Seq<char>, value: int| #[trigger] stat_bumped(a, b, key, value, content) {
            let (key, value) = choose|key: Seq<char>, value: int| #[trigger] stat_bumped(a, b, key, value, content);
            lemma_bump_grows_profile(a, b, key, value, content);
        } else {
            let u = names(a.unlocked@);
            assert(u.subrange(0, u.len() as int) =~= u);
        }
        lemma_profile_grows_trans(ws[0], a, b);
    }
}

/// A frame ends by raising the gold stat to the gold carried (which checks
/// achievements): then the gold stat covers the gold, and every achievement
/// whose stat has reached its threshold is unlocked; with the steps before
/// it, no stat has fallen and no achievement was lost over the frame.
pub proof fn lemma_frame_end(ws: Seq<World>, content: Content)
    requires
        ws.len() >= 2,
        forall|i: int| 0 <= i < ws.len() - 2 ==> #[trigger] profile_step(ws[i], ws[i + 1], content),
        stat_bumped(ws[ws.len() - 2], ws.last(), "gold"@, ws.last().player.gold as int, content),
    ensures
        profile_grows(ws[0], ws.last()),
        stat_val(stat_pairs(ws.last().stats@), "gold"@) >= ws.last().player.gold,
        forall|i: int| 0 <= i < content.achievements@.len()
            && stat_val(stat_pairs(ws.last().stats@), (#[trigger] content.achievements@[i]).stat@) >= content.achievements@[i].threshold
            ==> names(ws.last().unlocked@).contains(content.achievements@[i].id@),
{
    let a = ws[ws.len() - 2];
    let b = ws.last();
    assert(stat_bumped(a, b, "gold"@, b.player.gold as int, content));
    assert(profile_step(a, b, content));
    assert forall|i: int| 0 <= i < ws.len() - 1 implies #[trigger] profile_step(ws[i], ws[i + 1], content) by {
        if i == ws.len() - 2 {
            assert(profile_step(a, b, content));
        }
    }
    lemma_frame_profile(ws, content);
    lemma_bump_grows_profile(a, b, "gold"@, b.player.gold as int, content);
    let achs = content.achievements@;
    assert forall|i: int| 0 <= i < achs.len()
        && stat_val(stat_pairs(b.stats@), (#[trigger] achs[i]).stat@) >= achs[i].threshold
        implies names(b.unlocked@).contains(achs[i].id@) by {
        lemma_achievements_earned(achs, stat_pairs(b.stats@), names(a.unlocked@), achs.len() as int, i);
    }
}

/// Reading the same graffiti twice counts it once: the second reading
/// leaves the stats, achievements and toasts as the first left them.
pub proof fn lemma_graffiti_counts_once(
    w1: World,
    w2: World,
    w3: World,
    content: Content,
    gi: int,
    r1: Interaction,
    r2: Interaction,
)
    requires
        0 <= gi < w1.map.graffiti@.len(),
        graffiti_read(w1, w2, content, gi, r1),
        graffiti_read(w2, w3, content, gi, r2),
    ensures
        w3.stats == w2.stats,
        w3.unlocked == w2.unlocked,
        w3.toasts == w2.toasts,
{
    let idx = w1.map.graffiti@[gi].text_idx as int;
    let key = seen_key(idx);
    let s1 = stat_pairs(w1.stats@);
    if stat_val(s1, key) == 0 {
        let st = stat_set(s1, key, 1);
        lemma_stat_set_same(s1, key, 1);
        lemma_seen_key_not_graffiti(idx);
        lemma_stat_set_other(st, "graffiti"@, stat_val(st, "graffiti"@) + 1, key);
        assert(stat_val(stat_pairs(w2.stats@), key) == 1);
    }
}

proof fn lemma_seen_key_not_graffiti(idx: int)
    ensures
        seen_key(idx) != "graffiti"@,
{
    reveal_strlit("graffiti_seen_");
    reveal_strlit("graffiti");
    assert(seen_key(idx).len() >= 14);
}

/// Pressing E twice at the same graffiti (nothing else in reach) reads the
/// same line twice, and only the first reading of a line ever counts: the
/// graffiti stat grows by one when the line had not been read before, and
/// the second press leaves stats, achievements and toasts as they were.
pub proof fn lemma_graffiti_reread(
    w: World,
    w1: World,
    w2: World,
    content: Content,
    here: (i32, i32),
    near: (i32, i32),
    gi: usize,
    r1: Interaction,
    r2: Interaction,
)
    requires
        0 <= gi < w.map.graffiti@.len(),
        w.map.spec_tile(here.0 as int, here.1 as int) != Tile::Stairs,
        !campfire_near(w.map, near),
        interacted(w, w1, content, here, near, None, None, Some(gi), r1),
        interacted(w1, w2, content, here, near, None, None, Some(gi), r2),
    ensures
        ({
            let k = w.map.graffiti@[gi as int].text_idx as int;
            &&& r1 matches Interaction::Dialog { who, text } && who@ == "Graffiti on the wall"@
                && text@ == graffiti_text(content.graffiti@, k)
            &&& r2 matches Interaction::Dialog { who, text } && who@ == "Graffiti on the wall"@
                && text@ == graffiti_text(content.graffiti@, k)
            &&& stat_val(stat_pairs(w1.stats@), "graffiti"@) == stat_val(stat_pairs(w.stats@), "graffiti"@)
                + (if stat_val(stat_pairs(w.stats@), seen_key(k)) == 0 { 1int } else { 0 })
        }),
        w2.stats == w1.stats,
        w2.unlocked == w1.unlocked,
        w2.toasts == w1.toasts,
{
    assert(graffiti_read(w, w1, content, gi as int, r1));
    assert(w1.map == w.map);
    assert(graffiti_read(w1, w2, content, gi as int, r2));
    lemma_graffiti_counts_once(w, w1, w2, content, gi as int, r1, r2);
    let k = w.map.graffiti@[gi as int].text_idx as int;
    let key = seen_key(k);
    let s0 = stat_pairs(w.stats@);
    if stat_val(s0, key) == 0 {
        let st = stat_set(s0, key, 1);
        lemma_seen_key_not_graffiti(k);
        lemma_stat_set_other(s0, key, 1, "graffiti"@);
        lemma_stat_set_same(st, "graffiti"@, stat_val(st, "graffiti"@) + 1);
    }
}

/// What E would do is hinted exactly when E does something: `interact`
/// answers `Nothing` precisely when `interaction_hint` offers no prompt,
/// it descends precisely when the prompt is to descend, and it rests
/// precisely when the prompt is to rest, given the same surroundings (a
/// chest counting for the hint when it is still closed).
pub proof fn lemma_hint_matches_interact(
    old: World,
    new: World,
    content: Content,
    here: (i32, i32),
    near: (i32, i32),
    npc: Option<usize>,
    chest: Option<usize>,
    graffiti: Option<usize>,
    r: Interaction,
)
    requires
        interacted(old, new, content, here, near, npc, chest, graffiti, r),
    ensures
        (r is Nothing) <==> hint(old, content, here, near, npc,
            chest is Some && !old.chests@[chest->0 as int].opened, graffiti is Some) is None,
        (r is Descend) <==> hint(old, content, here, near, npc,
            chest is Some && !old.chests@[chest->0 as int].opened, graffiti is Some) == Some("[E] Descend deeper"@),
        (r is Rested) <==> hint(old, content, here, near, npc,
            chest is Some && !old.chests@[chest->0 as int].opened, graffiti is Some)
            == Some("[E] Rest by the fire (free, always)"@),
{
    let h = hint(old, content, here, near, npc, chest is Some && !old.chests@[chest->0 as int].opened, graffiti is Some);
    let descend = "[E] Descend deeper"@;
    let rest = "[E] Rest by the fire (free, always)"@;
    reveal_strlit("[E] Descend deeper");
    reveal_strlit("[E] Rest by the fire (free, always)");
    reveal_strlit("[E] Browse the co-op (");
    reveal_strlit("[E] Talk to ");
    reveal_strlit("[E] Open chest");
    reveal_strlit("[E] Read the writing on the wall");
    assert(descend[4] == 'D' && rest[4] == 'R' && rest[6] == 's');
    if old.map.spec_tile(here.0 as int, here.1 as int) == Tile::Stairs {
        assert(descend != rest);
    } else if campfire_near(old.map, near) {
        assert(descend != rest);
    } else if npc is Some {
        let d = content.npcs@[npc->0 as int];
        if d.shopkeeper && old.map.has_shop {
            let s = "[E] Browse the co-op ("@ + d.name@ + ")"@;
            assert(s[4] == 'B');
        } else {
            let s = "[E] Talk to "@ + d.name@;
            assert(s[4] == 'T');
        }
    } else if chest is Some && !old.chests@[chest->0 as int].opened {
        let (g, l, p) = choose|g: int, l: int, p: int|
            chest_draws_ok(content, old.depth as int, g, l, p) && #[trigger] chest_opened_with(old, new, content, chest->0 as int, r, g, l, p);
        assert(chest_opened_with(old, new, content, chest->0 as int, r, g, l, p));
        assert("[E] Open chest"@[4] == 'O');
    } else if graffiti is Some {
        assert("[E] Read the writing on the wall"@[4] == 'R');
        assert("[E] Read the writing on the wall"@[6] == 'a');
    } else {
    }
}


/// An index is in `indices_where(flags)` exactly when its flag is set.
proof fn lemma_indices_where_member(flags: Seq<bool>, j: int)
    ensures
        indices_where(flags).contains(j) <==> (0 <= j < flags.len() && flags[j]),
    decreases flags.len(),
{
    if flags.len() > 0 {
        let front = flags.drop_last();
        lemma_indices_where_member(front, j);
        let prev = indices_where(front);
        let tail: Seq<int> = if flags.last() { seq![flags.len() - 1] } else { Seq::empty() };
        assert(indices_where(flags) == prev + tail);
        lemma_indices_where_bound(front);
        if indices_where(flags).contains(j) {
            let k = choose|k: int| 0 <= k < indices_where(flags).len() && indices_where(flags)[k] == j;
            if k >= prev.len() {
                assert(tail[k - prev.len()] == j);
            } else {
                assert(prev[k] == j);
                assert(front[j] == flags[j]);
            }
        }
        if 0 <= j < flags.len() && flags[j] {
            if j == flags.len() - 1 {
                assert((prev + tail)[prev.len() as int] == j);
            } else {
                assert(front[j] == flags[j]);
                let k = choose|k: int| 0 <= k < prev.len() && prev[k] == j;
                assert((prev + tail)[k] == j);
            }
        }
    }
}

/// The tier cap of chest loot and of the co-op's stock at depth `d` is
/// `1 + d / 2` (Rust's division, toward zero), so it grows with depth: an
/// item can come out of a chest or be stocked at depth `d` exactly when its
/// tier is at most that cap.
pub proof fn lemma_loot_tier_cap(items: Seq<ItemDef>, d: int, d2: int, j: int)
    ensures
        loot_tier(d) == 1 + (if d >= 0 { d / 2 } else { -((-d) / 2) }),
        d <= d2 ==> loot_tier(d) <= loot_tier(d2),
        chest_pool(items, d).contains(j) <==> (0 <= j < items.len() && items[j].tier <= 1 + (if d >= 0 { d / 2 } else { -((-d) / 2) })),
        tier_pool(items, loot_tier(d)).contains(j) <==> (0 <= j < items.len() && items[j].tier <= 1 + (if d >= 0 { d / 2 } else { -((-d) / 2) })),
{
    let flags = items.map_values(|it: ItemDef| it.tier <= loot_tier(d));
    lemma_indices_where_member(flags, j);
}

} // verus!
