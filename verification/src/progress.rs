//! Growing stronger: level-ups and the numbers of a fight (damage, kill
//! rewards, spells). Who hits whom is decided by positions, which the
//! application tracks; these rules decide how much, and what follows.

use vstd::prelude::*;
use crate::content::{Content, SpellDef, MobDef, DropDef, indices_where, lemma_indices_where_bound};
use crate::rng::gen_range;
use crate::dungeon::rem;
use crate::text::{push_int, push_str, decimal};
use crate::world::{
    World, Player, GameEvent, xp_need, fits_i32, gear_sum, stat_atk, stat_def, stat_hp, stat_mp, stat_spd, lemma_xp_need_min, stat_pairs, stat_val, stat_set, names, toast_view,
    toast_push, push_all, checked, same_level, lemma_stat_range, lemma_stat_set_other, min_int,
};

verus! {

/// The stats, the unlocked achievements and the toast queue of a world.
pub open spec fn profile(w: World) -> (Seq<(Seq<char>, int)>, Seq<Seq<char>>, Seq<(Seq<char>, int)>) {
    (stat_pairs(w.stats@), names(w.unlocked@), toast_view(w.toasts@))
}

pub open spec fn rank(level: int) -> int {
    if level >= 1 { 0 } else { 1 - level }
}

pub open spec fn nonneg(x: int) -> int {
    if x >= 0 { x } else { 0 }
}

/// Spending `xp` on level-ups from `level`: the levels gained and the
/// experience left over. A level-up costs `xp_need` of the current level.
pub open spec fn climb(level: int, xp: int) -> (int, int)
    decreases rank(level), nonneg(xp),
{
    if xp >= xp_need(level) {
        proof {
            if level >= 1 {
                lemma_xp_need_min(level);
            }
        }
        let c = climb(level + 1, xp - xp_need(level));
        (c.0 + 1, c.1)
    } else {
        (0, xp)
    }
}

/// The experience that `k` level-ups from `level` cost.
pub open spec fn need_sum(level: int, k: int) -> int
    decreases k,
{
    if k <= 0 { 0 } else { xp_need(level) + need_sum(level + 1, k - 1) }
}

/// Defence points won by `k` level-ups from `level`: one on each new level
/// that is a multiple of 3.
pub open spec fn def_gain(level: int, k: int) -> int
    decreases k,
{
    if k <= 0 {
        0
    } else {
        (if rem(level + 1, 3) == 0 { 1int } else { 0int }) + def_gain(level + 1, k - 1)
    }
}

/// The base numbers after `k` level-ups: +1 level, +8 max HP, +4 max MP and
/// +1 attack each, and the defence of `def_gain`.
pub open spec fn grown(p: Player, k: int) -> Player {
    Player {
        level: (p.level + k) as i32,
        base_maxhp: (p.base_maxhp + 8 * k) as i32,
        base_maxmp: (p.base_maxmp + 4 * k) as i32,
        base_atk: (p.base_atk + k) as i32,
        base_def: (p.base_def + def_gain(p.level as int, k)) as i32,
        ..p
    }
}

/// The numbers stay within `i32` through all the level-ups that `xp` pays
/// for (beyond that the arithmetic overflows).
pub open spec fn level_room(p: Player, content: Content) -> bool {
    let k = climb(p.level as int, p.xp as int).0;
    &&& p.level + k <= i32::MAX
    &&& p.base_maxhp + 8 * k <= i32::MAX
    &&& p.base_maxmp + 4 * k <= i32::MAX
    &&& p.base_atk + k <= i32::MAX
    &&& p.base_def + def_gain(p.level as int, k) <= i32::MAX
    &&& forall|j: int| 0 <= j <= k ==> (#[trigger] grown(p, j)).totals_fit(content.items@)
}

/// The toast for reaching level `l`.
pub open spec fn level_msg(l: int) -> Seq<char> {
    "Level "@ + decimal(l) + "! The movement grows stronger."@
}

/// The toast announcing a spell.
pub open spec fn spell_msg(s: SpellDef) -> Seq<char> {
    "New spell: "@ + s.name@ + " — "@ + s.desc@
}

/// The announcements of the spells that unlock at level `l`, in order.
pub open spec fn spell_msgs(spells: Seq<SpellDef>, l: int) -> Seq<Seq<char>>
    decreases spells.len(),
{
    if spells.len() == 0 {
        Seq::empty()
    } else {
        let rest = spell_msgs(spells.drop_last(), l);
        if spells.last().unlock_level == l { rest.push(spell_msg(spells.last())) } else { rest }
    }
}

/// The profile after reaching level `l`: the level toast, the highest level
/// recorded (with the achievements it unlocks), then the new spells.
pub open spec fn announce(
    content: Content,
    prof: (Seq<(Seq<char>, int)>, Seq<Seq<char>>, Seq<(Seq<char>, int)>),
    l: int,
) -> (Seq<(Seq<char>, int)>, Seq<Seq<char>>, Seq<(Seq<char>, int)>) {
    let q = toast_push(prof.2, level_msg(l));
    let old_best = stat_val(prof.0, "level"@);
    let st = stat_set(prof.0, "level"@, if l > old_best { l } else { old_best });
    let ch = checked(content.achievements@, st, prof.1, q);
    (st, ch.0, push_all(ch.1, spell_msgs(content.spells@, l)))
}

/// The profile after reaching each of the `k` levels above `level`, in turn.
pub open spec fn announce_all(
    content: Content,
    prof: (Seq<(Seq<char>, int)>, Seq<Seq<char>>, Seq<(Seq<char>, int)>),
    level: int,
    k: int,
) -> (Seq<(Seq<char>, int)>, Seq<Seq<char>>, Seq<(Seq<char>, int)>)
    decreases k,
{
    if k <= 0 {
        prof
    } else {
        announce_all(content, announce(content, prof, level + 1), level + 1, k - 1)
    }
}

/// `k` level-up events.
pub open spec fn level_events(k: int) -> Seq<GameEvent> {
    Seq::new(nat_of(k), |i: int| GameEvent::LevelUp)
}

pub open spec fn nat_of(k: int) -> nat {
    if k >= 0 { k as nat } else { 0 }
}

/// What the level-ups that the experience pays for do: the levels and base
/// numbers grow, the experience spent is gone, HP and MP are refilled to the
/// new maxima (when any level was gained), each level is announced.
pub open spec fn leveled_up(old: World, new: World, content: Content) -> bool {
    let c = climb(old.player.level as int, old.player.xp as int);
    let g = grown(old.player, c.0);
    &&& new.player.level == g.level
    &&& new.player.base_maxhp == g.base_maxhp && new.player.base_maxmp == g.base_maxmp
    &&& new.player.base_atk == g.base_atk && new.player.base_def == g.base_def
    &&& new.player.base_spd == old.player.base_spd
    &&& new.player.xp == c.1
    &&& if c.0 > 0 {
        new.player.hp == new.player.spec_totals(content.items@).2 && new.player.mp == new.player.spec_totals(
            content.items@,
        ).3
    } else {
        new.player.hp == old.player.hp && new.player.mp == old.player.mp
    }
    &&& new.player.gold == old.player.gold
    &&& new.player.inventory == old.player.inventory
    &&& new.player.equipment == old.player.equipment
    &&& new.events@ == old.events@ + level_events(c.0)
    &&& profile(new) == announce_all(content, profile(old), old.player.level as int, c.0)
    &&& same_level(old, new)
}

/// Whether gear bonuses fit depends only on the base numbers and the gear.
proof fn lemma_totals_fit_same(a: Player, b: Player, content: Content)
    requires
        a.base_atk == b.base_atk && a.base_def == b.base_def && a.base_maxhp == b.base_maxhp,
        a.base_maxmp == b.base_maxmp && a.base_spd == b.base_spd,
        a.equipment == b.equipment,
        a.totals_fit(content.items@),
    ensures
        b.totals_fit(content.items@),
{
    assert forall|k: int| 0 <= k <= b.equipment@.len() implies {
        &&& fits_i32(b.base_atk + #[trigger] gear_sum(b.equipment@, content.items@, stat_atk(), k))
        &&& fits_i32(b.base_def + gear_sum(b.equipment@, content.items@, stat_def(), k))
        &&& fits_i32(b.base_maxhp + gear_sum(b.equipment@, content.items@, stat_hp(), k))
        &&& fits_i32(b.base_maxmp + gear_sum(b.equipment@, content.items@, stat_mp(), k))
        &&& fits_i32(b.base_spd + gear_sum(b.equipment@, content.items@, stat_spd(), k))
    } by {
        assert(fits_i32(a.base_atk + gear_sum(a.equipment@, content.items@, stat_atk(), k)));
    }
}

proof fn lemma_def_gain_nonneg(level: int, k: int)
    ensures
        0 <= def_gain(level, k),
    decreases k,
{
    if k > 0 {
        lemma_def_gain_nonneg(level + 1, k - 1);
    }
}

proof fn lemma_climb_step(level: int, xp: int)
    requires
        xp >= xp_need(level),
    ensures
        climb(level, xp).0 == 1 + climb(level + 1, xp - xp_need(level)).0,
        climb(level, xp).1 == climb(level + 1, xp - xp_need(level)).1,
        climb(level, xp).0 >= 1,
{
    lemma_climb_nonneg(level + 1, xp - xp_need(level));
}

proof fn lemma_climb_nonneg(level: int, xp: int)
    ensures
        climb(level, xp).0 >= 0,
    decreases rank(level), nonneg(xp),
{
    if xp >= xp_need(level) {
        if level >= 1 {
            lemma_xp_need_min(level);
        }
        lemma_climb_nonneg(level + 1, xp - xp_need(level));
    }
}

/// Level-ups keep the experience earned: it is what the levels gained cost
/// plus what is left over, and what is left over does not pay for the next
/// level.
pub proof fn lemma_level_ups_keep_xp(level: int, xp: int)
    ensures
        climb(level, xp).0 >= 0,
        xp == climb(level, xp).1 + need_sum(level, climb(level, xp).0),
        climb(level, xp).1 < xp_need(level + climb(level, xp).0),
    decreases rank(level), nonneg(xp),
{
    if xp >= xp_need(level) {
        if level >= 1 {
            lemma_xp_need_min(level);
        }
        lemma_level_ups_keep_xp(level + 1, xp - xp_need(level));
    }
}

impl World {
    fn announce_spells(&mut self, content: &Content, l: i32)
        ensures
            toast_view(final(self).toasts@) == push_all(toast_view(old(self).toasts@), spell_msgs(content.spells@, l as int)),
            final(self).stats == old(self).stats && final(self).unlocked == old(self).unlocked,
            final(self).player == old(self).player && final(self).events == old(self).events,
            same_level(*old(self), *final(self)),
    {
        let ghost q0 = toast_view(self.toasts@);
        let ghost spells = content.spells@;
        let mut i: usize = 0;
        while i < content.spells.len()
            invariant
                i <= spells.len(),
                spells == content.spells@,
                toast_view(self.toasts@) == push_all(q0, spell_msgs(spells.take(i as int), l as int)),
                self.stats == old(self).stats && self.unlocked == old(self).unlocked,
                self.player == old(self).player && self.events == old(self).events,
                same_level(*old(self), *self),
            decreases spells.len() - i,
        {
            let s = &content.spells[i];
            let ghost msgs = spell_msgs(spells.take(i as int), l as int);
            assert(spells.take(i + 1).drop_last() =~= spells.take(i as int));
            if s.unlock_level == l {
                let mut msg = String::from_str("New spell: ");
                push_str(&mut msg, s.name.as_str());
                push_str(&mut msg, " — ");
                push_str(&mut msg, s.desc.as_str());
                self.toast(msg);
                assert(msgs.push(spell_msg(*s)).drop_last() =~= msgs);
            }
            i = i + 1;
        }
        assert(spells.take(i as int) =~= spells);
    }
    /// One level-up: the experience for it is spent, the base numbers grow,
    /// HP and MP are refilled, and the level is announced.
    fn level_up(&mut self, content: &Content)
        requires
            old(self).player.xp >= xp_need(old(self).player.level as int),
            old(self).player.level < i32::MAX,
            old(self).player.base_maxhp + 8 <= i32::MAX,
            old(self).player.base_maxmp + 4 <= i32::MAX,
            old(self).player.base_atk + 1 <= i32::MAX,
            old(self).player.base_def + def_gain(old(self).player.level as int, 1) <= i32::MAX,
            grown(old(self).player, 1).totals_fit(content.items@),
        ensures
            final(self).player.level == grown(old(self).player, 1).level,
            final(self).player.base_maxhp == grown(old(self).player, 1).base_maxhp,
            final(self).player.base_maxmp == grown(old(self).player, 1).base_maxmp,
            final(self).player.base_atk == grown(old(self).player, 1).base_atk,
            final(self).player.base_def == grown(old(self).player, 1).base_def,
            final(self).player.base_spd == old(self).player.base_spd,
            final(self).player.xp == old(self).player.xp - xp_need(old(self).player.level as int),
            final(self).player.hp == final(self).player.spec_totals(content.items@).2,
            final(self).player.mp == final(self).player.spec_totals(content.items@).3,
            final(self).player.gold == old(self).player.gold,
            final(self).player.inventory == old(self).player.inventory,
            final(self).player.equipment == old(self).player.equipment,
            final(self).events@ == old(self).events@.push(GameEvent::LevelUp),
            profile(*final(self)) == announce(*content, profile(*old(self)), old(self).player.level + 1),
            same_level(*old(self), *final(self)),
    {
        let ghost g = grown(old(self).player, 1);
        proof {
            if old(self).player.level >= 1 {
                lemma_xp_need_min(old(self).player.level as int);
            }
        }
        let need = self.player.xp_to_next();
        self.player.xp = self.player.xp - need;
        self.player.level = self.player.level + 1;
        self.player.base_maxhp = self.player.base_maxhp + 8;
        self.player.base_maxmp = self.player.base_maxmp + 4;
        self.player.base_atk = self.player.base_atk + 1;
        proof {
            reveal_with_fuel(def_gain, 2);
        }
        if self.player.level % 3 == 0 {
            self.player.base_def = self.player.base_def + 1;
        }
        proof { lemma_totals_fit_same(g, self.player, *content); }
        let (_, _, mh, mm, _) = self.player.totals(content);
        self.player.hp = mh;
        self.player.mp = mm;
        self.events.push(GameEvent::LevelUp);
        let l = self.player.level;
        let mut msg = String::from_str("Level ");
        push_int(&mut msg, l as i64);
        push_str(&mut msg, "! The movement grows stronger.");
        self.toast(msg);
        self.bump_stat_max("level", l as i64, content);
        self.announce_spells(content, l);
    }

    /// Spends the experience on every level-up it pays for (see `leveled_up`).
    pub fn apply_level_ups(&mut self, content: &Content)
        requires
            level_room(old(self).player, *content),
        ensures
            leveled_up(*old(self), *final(self), *content),
        decreases rank(old(self).player.level as int), nonneg(old(self).player.xp as int),
    {
        let need = self.player.xp_to_next();
        if self.player.xp < need {
            return;
        }
        let ghost w0 = *self;
        let ghost p0 = self.player;
        let ghost c = climb(p0.level as int, p0.xp as int);
        proof {
            lemma_climb_step(p0.level as int, p0.xp as int);
            if p0.level >= 1 {
                lemma_xp_need_min(p0.level as int);
            }
            assert(grown(p0, 1).totals_fit(content.items@));
            reveal_with_fuel(def_gain, 2);
            lemma_def_gain_nonneg(p0.level + 1, c.0 - 1);
            lemma_def_gain_nonneg(p0.level + 1, 0);
            assert(def_gain(p0.level as int, c.0) == def_gain(p0.level as int, 1) + def_gain(p0.level + 1, c.0 - 1));
        }
        self.level_up(content);
        let ghost p1 = self.player;
        proof {
            reveal_with_fuel(def_gain, 2);
            assert(climb(p1.level as int, p1.xp as int) == (c.0 - 1, c.1));
            assert forall|j: int| 0 <= j <= c.0 - 1 implies (#[trigger] grown(p1, j)).totals_fit(content.items@) by {
                assert(def_gain(p0.level as int, j + 1) == def_gain(p0.level as int, 1) + def_gain(p0.level + 1, j));
                lemma_totals_fit_same(grown(p0, j + 1), grown(p1, j), *content);
            }
            assert(def_gain(p0.level as int, c.0) == def_gain(p0.level as int, 1) + def_gain(p0.level + 1, c.0 - 1));
        }
        self.apply_level_ups(content);
        proof {
            assert(w0.events@ + level_events(c.0) =~= w0.events@.push(GameEvent::LevelUp) + level_events(c.0 - 1));
        }
    }
}

// ---------- the numbers of a fight ----------

/// The damage of a hit: attack less armour plus the roll, and at least 1.
pub open spec fn hit(atk: int, armor: int, roll: int) -> int {
    if atk - armor + roll > 1 { atk - armor + roll } else { 1 }
}

/// The damage of a hit with attack `atk` against `armor`, given the roll.
pub fn hit_damage(atk: i32, armor: i32, roll: i32) -> (d: i32)
    requires
        i32::MIN <= atk - armor + roll <= i32::MAX,
    ensures
        d == hit(atk as int, armor as int, roll as int),
{
    let v = atk as i64 - armor as i64 + roll as i64;
    if v > 1 { v as i32 } else { 1 }
}

/// A hit whose roll is drawn from `0..spread`.
pub fn strike(atk: i32, armor: i32, spread: i32) -> (d: i32)
    requires
        1 <= spread,
        i32::MIN <= atk - armor,
        atk - armor + spread - 1 <= i32::MAX,
    ensures
        exists|roll: int| 0 <= roll < spread && d == hit(atk as int, armor as int, roll),
{
    let roll = gen_range(0, spread);
    hit_damage(atk, armor, roll)
}

/// The damage and critical flag of a swing, given its draws.
pub open spec fn swung(atk: int, mob_def: int, crit_roll: int, roll: int) -> (int, bool) {
    (if crit_roll < 12 { 2 * hit(atk, mob_def, roll) } else { hit(atk, mob_def, roll) }, crit_roll < 12)
}

/// The player's swing at a mob with defence `mob_def`, given the draws: a
/// critical when `crit_roll` (out of 100) is below 12, and a hit with roll
/// `roll`, doubled on a critical. Returns the damage and whether it was
/// critical.
pub fn swing_on_rolls(atk: i32, mob_def: i32, crit_roll: i32, roll: i32) -> (r: (i32, bool))
    requires
        i32::MIN <= atk - mob_def + roll <= i32::MAX,
        crit_roll < 12 ==> 2 * hit(atk as int, mob_def as int, roll as int) <= i32::MAX,
    ensures
        r.1 == (crit_roll < 12),
        r.0 == (if r.1 { 2 * hit(atk as int, mob_def as int, roll as int) } else { hit(atk as int, mob_def as int, roll as int) }),
{
    let d = hit_damage(atk, mob_def, roll);
    if crit_roll < 12 { (d * 2, true) } else { (d, false) }
}

/// The player's swing at a mob with defence `mob_def`: a 12-in-100 roll for
/// a critical, then a hit with a roll in `0..3`, doubled on a critical
/// (see `swing_on_rolls`). Returns the damage and whether it was critical.
pub fn swing(atk: i32, mob_def: i32) -> (r: (i32, bool))
    requires
        i32::MIN <= atk - mob_def,
        2 * (atk - mob_def + 2) <= i32::MAX,
    ensures
        exists|crit_roll: int, roll: int| 0 <= crit_roll < 100 && 0 <= roll < 3
            && (r.0 as int, r.1) == #[trigger] swung(atk as int, mob_def as int, crit_roll, roll),
{
    let crit_roll = gen_range(0, 100);
    let roll = gen_range(0, 3);
    let r = swing_on_rolls(atk, mob_def, crit_roll, roll);
    assert((r.0 as int, r.1) == swung(atk as int, mob_def as int, crit_roll as int, roll as int));
    r
}

/// A mob's bite at the player: the player's defence counts half (rounded
/// toward zero) and the roll is in `0..2`.
pub fn bite(mob_atk: i32, player_def: i32) -> (d: i32)
    requires
        i32::MIN <= mob_atk - crate::dungeon::quot(player_def as int, 2),
        mob_atk - crate::dungeon::quot(player_def as int, 2) + 1 <= i32::MAX,
    ensures
        exists|roll: int| 0 <= roll < 2 && d == hit(mob_atk as int, crate::dungeon::quot(player_def as int, 2), roll),
{
    let half = player_def / 2;
    assert(half as int == crate::dungeon::quot(player_def as int, 2));
    strike(mob_atk, half, 2)
}

/// The profile after adding `amount` to stat `key` (which checks achievements).
pub open spec fn prof_add(
    content: Content,
    prof: (Seq<(Seq<char>, int)>, Seq<Seq<char>>, Seq<(Seq<char>, int)>),
    key: Seq<char>,
    amount: int,
) -> (Seq<(Seq<char>, int)>, Seq<Seq<char>>, Seq<(Seq<char>, int)>) {
    let st = stat_set(prof.0, key, stat_val(prof.0, key) + amount);
    let ch = checked(content.achievements@, st, prof.1, prof.2);
    (st, ch.0, ch.1)
}

/// The profile after a toast.
pub open spec fn prof_toast(
    prof: (Seq<(Seq<char>, int)>, Seq<Seq<char>>, Seq<(Seq<char>, int)>),
    msg: Seq<char>,
) -> (Seq<(Seq<char>, int)>, Seq<Seq<char>>, Seq<(Seq<char>, int)>) {
    (prof.0, prof.1, toast_push(prof.2, msg))
}

/// The items a kill drops: each drop whose roll (in parts per million) came
/// in under its chance, in order.
pub open spec fn loot_of(drops: Seq<DropDef>, rolls: Seq<int>) -> Seq<Seq<char>>
    decreases drops.len(),
{
    if drops.len() == 0 {
        Seq::empty()
    } else {
        let rest = loot_of(drops.drop_last(), rolls.drop_last());
        if rolls.last() < drops.last().chance { rest.push(drops.last().item@) } else { rest }
    }
}

/// The gold a kill of `m` pays: a roll in `gold_min..=gold_max` when that
/// range holds more than one value (stated on the ranges the random source
/// covers: a non-negative `gold_max` with a `gold_min` of at most zero, or
/// a positive range below 2^20), else `gold_min`.
pub open spec fn gold_ok(m: MobDef, g: int) -> bool {
    if m.gold_max > m.gold_min {
        &&& i32::MIN <= g <= i32::MAX
        &&& 0 <= m.gold_max && (m.gold_min <= 0 || m.gold_max < 1048576) ==> m.gold_min <= g <= m.gold_max
    } else {
        g == m.gold_min
    }
}

/// The toast when a boss falls.
pub open spec fn boss_msg(m: MobDef) -> Seq<char> {
    m.name@ + " liquidated. The dungeon breathes easier."@
}

/// The rewards of killing a mob of type `m` that paid `gold` and dropped
/// `loot`: the gold and experience, a kill event, the kill counted (and a
/// boss counted and toasted).
pub open spec fn rewarded(old: World, new: World, content: Content, m: MobDef, gold: int, loot: Seq<Seq<char>>) -> bool {
    &&& gold_ok(m, gold)
    &&& exists|rolls: Seq<int>|
        rolls.len() == m.drops@.len() && (forall|i: int| 0 <= i < rolls.len() ==> 0 <= #[trigger] rolls[i] < 1000000)
            && loot == loot_of(m.drops@, rolls)
    &&& new.player.gold == old.player.gold + gold
    &&& new.player.xp == old.player.xp + m.xp
    &&& new.player.hp == old.player.hp && new.player.mp == old.player.mp
    &&& new.player.level == old.player.level
    &&& new.player.inventory == old.player.inventory && new.player.equipment == old.player.equipment
    &&& new.player.base_maxhp == old.player.base_maxhp && new.player.base_maxmp == old.player.base_maxmp
    &&& new.player.base_atk == old.player.base_atk && new.player.base_def == old.player.base_def
    &&& new.player.base_spd == old.player.base_spd
    &&& new.events@ == old.events@.push(GameEvent::Kill)
    &&& same_level(old, new)
    &&& profile(new) == if m.boss {
        prof_toast(prof_add(content, prof_add(content, profile(old), "kills"@, 1), "bosses"@, 1), boss_msg(m))
    } else {
        prof_add(content, profile(old), "kills"@, 1)
    }
}

pub open spec fn item_names(v: Seq<String>) -> Seq<Seq<char>> {
    v.map_values(|s: String| s@)
}

impl World {
    /// Damage the player takes in a frame: HP drops and a hurt event is
    /// raised; no damage changes nothing.
    pub fn take_hits(&mut self, dmg: i32)
        requires
            dmg > 0 ==> old(self).player.hp - dmg >= i32::MIN,
        ensures
            dmg > 0 ==> final(self).player.hp == old(self).player.hp - dmg && final(self).events@ == old(self).events@.push(
                GameEvent::Hurt) && final(self).player == (Player { hp: final(self).player.hp, ..old(self).player })
                && final(self).toasts == old(self).toasts && final(self).stats == old(self).stats
                && final(self).unlocked == old(self).unlocked && same_level(*old(self), *final(self)),
            dmg <= 0 ==> *final(self) == *old(self),
    {
        if dmg > 0 {
            self.player.hp = self.player.hp - dmg;
            self.events.push(GameEvent::Hurt);
        }
    }

    /// A comrade of NPC type `def_idx` has fallen: the commune mourns.
    pub fn fighter_fell(&mut self, content: &Content, def_idx: usize)
        requires
            def_idx < content.npcs@.len(),
        ensures
            toast_view(final(self).toasts@) == toast_push(toast_view(old(self).toasts@),
                content.npcs@[def_idx as int].name@ + " has fallen. The commune mourns — and remembers."@),
            final(self).player == old(self).player && final(self).events == old(self).events,
            final(self).stats == old(self).stats && final(self).unlocked == old(self).unlocked,
            same_level(*old(self), *final(self)),
    {
        let mut msg = content.npcs[def_idx].name.clone();
        push_str(&mut msg, " has fallen. The commune mourns — and remembers.");
        self.toast(msg);
    }

    /// Settles the kill of a mob of type `def_idx` (see `rewarded`); returns
    /// the gold paid and the ids of the items dropped, which the application
    /// scatters on the floor.
    pub fn reward_kill(&mut self, content: &Content, def_idx: usize) -> (r: (i64, Vec<String>))
        requires
            def_idx < content.mobs@.len(),
            content.mobs@[def_idx as int].gold_max > content.mobs@[def_idx as int].gold_min
                ==> content.mobs@[def_idx as int].gold_max < i32::MAX,
            i64::MIN - i32::MIN <= old(self).player.gold <= i64::MAX - i32::MAX,
            i64::MIN <= old(self).player.xp + content.mobs@[def_idx as int].xp <= i64::MAX,
            stat_val(stat_pairs(old(self).stats@), "kills"@) < i64::MAX,
            stat_val(stat_pairs(old(self).stats@), "bosses"@) < i64::MAX,
        ensures
            rewarded(*old(self), *final(self), *content, content.mobs@[def_idx as int], r.0 as int, item_names(r.1@)),
    {
        let m = &content.mobs[def_idx];
        self.events.push(GameEvent::Kill);
        let gold: i64 = if m.gold_max > m.gold_min {
            gen_range(m.gold_min, m.gold_max + 1) as i64
        } else {
            m.gold_min as i64
        };
        self.player.gold = self.player.gold + gold;
        self.player.xp = self.player.xp + m.xp as i64;
        let mut loot: Vec<String> = Vec::new();
        let ghost mut rolls: Seq<int> = Seq::empty();
        let ghost drops = m.drops@;
        let mut i: usize = 0;
        while i < m.drops.len()
            invariant
                i <= drops.len(),
                drops == m.drops@,
                rolls.len() == i,
                forall|j: int| 0 <= j < rolls.len() ==> 0 <= #[trigger] rolls[j] < 1000000,
                item_names(loot@) == loot_of(drops.take(i as int), rolls),
            decreases drops.len() - i,
        {
            let roll = gen_range(0, 1000000);
            let d = &m.drops[i];
            let ghost before = item_names(loot@);
            if (roll as i64) < (d.chance as i64) {
                loot.push(d.item.clone());
                assert(item_names(loot@) =~= before.push(d.item@));
            }
            proof {
                assert(drops.take(i + 1).drop_last() =~= drops.take(i as int));
                assert(rolls.push(roll as int).drop_last() =~= rolls);
                rolls = rolls.push(roll as int);
            }
            i = i + 1;
        }
        assert(drops.take(i as int) =~= drops);
        let ghost before_kills = *self;
        proof { lemma_stat_range(self.stats@, "kills"@); }
        self.add_stat("kills", 1, content);
        if m.boss {
            proof {
                reveal_strlit("kills");
                reveal_strlit("bosses");
                assert("kills"@.len() != "bosses"@.len());
                lemma_stat_set_other(stat_pairs(before_kills.stats@), "kills"@,
                    stat_val(stat_pairs(before_kills.stats@), "kills"@) + 1, "bosses"@);
                lemma_stat_range(self.stats@, "bosses"@);
            }
            self.add_stat("bosses", 1, content);
            let mut msg = m.name.clone();
            push_str(&mut msg, " liquidated. The dungeon breathes easier.");
            self.toast(msg);
        }
        assert(loot_of(drops, rolls) == item_names(loot@));
        (gold, loot)
    }
}

/// The indices of the spells known at `level`, in order.
pub open spec fn known(content: Content, level: int) -> Seq<int> {
    indices_where(content.spells@.map_values(|s: SpellDef| s.unlock_level <= level))
}

/// Casting the `slot`-th known spell, where `target_in_range` says whether a
/// mob stands in reach of a single-target spell. Without enough MP, or
/// without a target for a single-target spell, a toast says so. A spell
/// that neither damages nor heals does nothing. Otherwise its cost is paid,
/// a cast event raised, a healing spell heals (up to max HP), and the
/// spell's index is returned for the application to deal its damage.
pub open spec fn cast_result(
    old: World,
    new: World,
    content: Content,
    slot: int,
    target_in_range: bool,
    r: Option<usize>,
) -> bool {
    let ks = known(content, old.player.level as int);
    if slot >= ks.len() {
        r is None && new == old
    } else {
        let si = ks[slot];
        let s = content.spells@[si];
        if old.player.mp < s.cost || (s.damage > 0 && s.radius <= 0 && !target_in_range) {
            &&& r is None
            &&& new.player == old.player && new.events == old.events
            &&& new.stats == old.stats && new.unlocked == old.unlocked
            &&& same_level(old, new)
            &&& toast_view(new.toasts@) == toast_push(toast_view(old.toasts@),
                if old.player.mp < s.cost { "Not enough MP for "@ + s.name@ + "."@ } else { "No exploiter in range."@ })
        } else if s.damage <= 0 && s.heal <= 0 {
            r is None && new == old
        } else {
            &&& r == Some(si as usize)
            &&& new.player.mp == old.player.mp - s.cost
            &&& new.player.hp == if s.heal > 0 {
                min_int(old.player.hp + s.heal, old.player.spec_totals(content.items@).2)
            } else {
                old.player.hp as int
            }
            &&& new.player == (Player { hp: new.player.hp, mp: new.player.mp, ..old.player })
            &&& new.events@ == old.events@.push(GameEvent::Cast)
            &&& new.toasts == old.toasts && new.stats == old.stats && new.unlocked == old.unlocked
            &&& same_level(old, new)
        }
    }
}

impl World {
    /// Casts the `slot`-th known spell (see `cast_result`).
    pub fn cast_spell(&mut self, content: &Content, slot: usize, target_in_range: bool) -> (r: Option<usize>)
        requires
            old(self).player.totals_fit(content.items@),
            slot < known(*content, old(self).player.level as int).len() ==> {
                let s = content.spells@[known(*content, old(self).player.level as int)[slot as int]];
                &&& fits_i32(old(self).player.mp - s.cost)
                &&& fits_i32(old(self).player.hp + s.heal)
            },
        ensures
            cast_result(*old(self), *final(self), *content, slot as int, target_in_range, r),
    {
        let ks = content.known_spells(self.player.level);
        proof {
            lemma_indices_where_bound(content.spells@.map_values(|s: SpellDef| s.unlock_level <= old(self).player.level));
        }
        if slot >= ks.len() {
            return None;
        }
        let si = ks[slot];
        assert(si as int == known(*content, self.player.level as int)[slot as int]);
        let s = &content.spells[si];
        if self.player.mp < s.cost {
            let mut msg = String::from_str("Not enough MP for ");
            push_str(&mut msg, s.name.as_str());
            push_str(&mut msg, ".");
            self.toast(msg);
            return None;
        }
        if s.damage > 0 && s.radius <= 0 {
            if !target_in_range {
                self.toast(String::from_str("No exploiter in range."));
                return None;
            }
        } else if s.damage <= 0 && s.heal <= 0 {
            return None;
        }
        self.player.mp = self.player.mp - s.cost;
        self.events.push(GameEvent::Cast);
        if s.heal > 0 {
            let (_, _, maxhp, _, _) = self.player.totals(content);
            let hp = self.player.hp + s.heal;
            self.player.hp = if hp < maxhp { hp } else { maxhp };
        }
        Some(si)
    }
}

impl World {
    /// HP and MP never exceed the maxima the gear allows (checked each frame).
    pub fn clamp_vitals(&mut self, content: &Content)
        requires
            old(self).player.totals_fit(content.items@),
        ensures
            final(self).player.hp == min_int(old(self).player.hp as int, old(self).player.spec_totals(content.items@).2),
            final(self).player.mp == min_int(old(self).player.mp as int, old(self).player.spec_totals(content.items@).3),
            final(self).player == (Player { hp: final(self).player.hp, mp: final(self).player.mp, ..old(self).player }),
            final(self).events == old(self).events && final(self).toasts == old(self).toasts,
            final(self).stats == old(self).stats && final(self).unlocked == old(self).unlocked,
            same_level(*old(self), *final(self)),
    {
        let (_, _, maxhp, maxmp, _) = self.player.totals(content);
        if self.player.hp > maxhp {
            self.player.hp = maxhp;
        }
        if self.player.mp > maxmp {
            self.player.mp = maxmp;
        }
    }

    /// The slow trickle of mana: one point, up to the maximum.
    pub fn trickle_mp(&mut self, content: &Content)
        requires
            old(self).player.totals_fit(content.items@),
            old(self).player.mp < i32::MAX,
        ensures
            final(self).player.mp == min_int(old(self).player.mp + 1, old(self).player.spec_totals(content.items@).3),
            final(self).player == (Player { mp: final(self).player.mp, ..old(self).player }),
            final(self).events == old(self).events && final(self).toasts == old(self).toasts,
            final(self).stats == old(self).stats && final(self).unlocked == old(self).unlocked,
            same_level(*old(self), *final(self)),
    {
        let (_, _, _, maxmp, _) = self.player.totals(content);
        let mp = self.player.mp + 1;
        self.player.mp = if mp < maxmp { mp } else { maxmp };
    }
}


/// Each level-up adds one defence point exactly when the level reached is a
/// multiple of three: `k + 1` level-ups from `level` give the defence of the
/// first `k` plus one when `level + k + 1` divides by three, and none at all
/// give none.
pub proof fn lemma_def_gain_rule(level: int, k: int)
    requires
        k >= 0,
    ensures
        def_gain(level, 0) == 0,
        def_gain(level, k + 1) == def_gain(level, k) + (if (level + k + 1) % 3 == 0 { 1int } else { 0int }),
    decreases k,
{
    lemma_rem3(level + k + 1);
    if k > 0 {
        lemma_def_gain_rule(level + 1, k - 1);
    } else {
        assert(def_gain(level + 1, 0) == 0);
    }
}

/// A remainder toward zero by three vanishes exactly when the number divides by three.
proof fn lemma_rem3(a: int)
    ensures
        (rem(a, 3) == 0) == (a % 3 == 0),
{
    if a < 0 {
        let b = -a;
        assert((b % 3 == 0) == (a % 3 == 0)) by (nonlinear_arith)
            requires
                b == -a,
        {
            vstd::arithmetic::div_mod::lemma_fundamental_div_mod(b, 3);
            vstd::arithmetic::div_mod::lemma_fundamental_div_mod(a, 3);
        }
    }
}

/// One level-up of a player: the new level is one higher and the base
/// defence grows by one exactly when that new level is a multiple of three
/// (and the other base numbers grow by 8 HP, 4 MP and 1 attack).
pub proof fn lemma_level_up_defence(p: Player)
    requires
        i32::MIN <= p.level + 1 <= i32::MAX,
        i32::MIN <= p.base_def + 1 <= i32::MAX,
        i32::MIN <= p.base_maxhp + 8 <= i32::MAX,
        i32::MIN <= p.base_maxmp + 4 <= i32::MAX,
        i32::MIN <= p.base_atk + 1 <= i32::MAX,
    ensures
        grown(p, 1).level == p.level + 1,
        grown(p, 1).base_def == p.base_def + (if (p.level + 1) % 3 == 0 { 1int } else { 0int }),
        grown(p, 1).base_maxhp == p.base_maxhp + 8,
        grown(p, 1).base_maxmp == p.base_maxmp + 4,
        grown(p, 1).base_atk == p.base_atk + 1,
{
    lemma_def_gain_rule(p.level as int, 0);
}

} // verus!
