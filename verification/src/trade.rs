//! The backpack screens and the co-op: taking gear off the paper doll,
//! dropping and picking up items, buying and selling.

use vstd::prelude::*;
use crate::content::{Content, item_def};
use crate::text::{push_int, push_str, decimal};
use crate::world::{
    World, GameEvent, EQUIP_SLOTS, stacks, inv_add, inv_remove, stack_room, stack_floor, gear, worn, take_off,
    item_name, toast_view, toast_push, stat_pairs, stat_val, stat_set, names, checked, same_but_pack, same_build,
    same_build_but_gear, worn_exec, take_off_exec, name_of, message, lemma_stat_range,
};

verus! {

/// The name of paper-doll slot `k`; indices past the last slot mean the last.
pub open spec fn slot_name(k: int) -> Seq<char> {
    if k <= 0 {
        "weapon"@
    } else if k == 1 {
        "offhand"@
    } else if k == 2 {
        "head"@
    } else if k == 3 {
        "chest"@
    } else if k == 4 {
        "legs"@
    } else if k == 5 {
        "boots"@
    } else {
        "ring"@
    }
}

/// Nothing but the backpack, the gear and the toasts changed.
pub open spec fn pack_only(old: World, new: World) -> bool {
    &&& same_but_pack(old, new)
    &&& same_build_but_gear(old.player, new.player)
    &&& new.player.hp == old.player.hp && new.player.mp == old.player.mp
    &&& new.stats == old.stats && new.unlocked == old.unlocked
}

/// Taking off what is worn in slot `slot_idx`: it goes back into the
/// backpack, or stays on when the backpack is full.
pub open spec fn unequipped(old: World, new: World, content: Content, slot_idx: int) -> bool {
    let slot = slot_name(slot_idx);
    match worn(gear(old.player.equipment@), slot) {
        None => new == old,
        Some(id) => {
            let r = inv_add(stacks(old.player.inventory@), id);
            &&& pack_only(old, new)
            &&& new.player.gold == old.player.gold
            &&& if r.1 {
                &&& stacks(new.player.inventory@) == r.0
                &&& gear(new.player.equipment@) == take_off(gear(old.player.equipment@), slot)
                &&& toast_view(new.toasts@) == toast_push(toast_view(old.toasts@), "Unequipped: "@ + item_name(content.items@, id))
            } else {
                &&& stacks(new.player.inventory@) == stacks(old.player.inventory@)
                &&& new.player.equipment == old.player.equipment
                &&& toast_view(new.toasts@) == toast_push(toast_view(old.toasts@), "Backpack is full."@)
            }
        },
    }
}

/// The profile after adding `amount` to stat `key` (which checks
/// achievements) and then toasting `msg`.
pub open spec fn stat_then_toast(old: World, new: World, content: Content, key: Seq<char>, amount: int, msg: Seq<char>) -> bool {
    let st = stat_set(stat_pairs(old.stats@), key, stat_val(stat_pairs(old.stats@), key) + amount);
    let ch = checked(content.achievements@, st, names(old.unlocked@), toast_view(old.toasts@));
    &&& stat_pairs(new.stats@) == st
    &&& names(new.unlocked@) == ch.0
    &&& toast_view(new.toasts@) == toast_push(ch.1, msg)
}

/// Buying co-op stock line `i`: with enough gold and room in the backpack
/// the item goes in, its price is paid and the purchase counted; otherwise
/// a toast says why not. Stock with no definition is ignored.
pub open spec fn bought(old: World, new: World, content: Content, i: int) -> bool {
    let id = old.shop_stock@[i]@;
    match item_def(content.items@, id) {
        None => new == old,
        Some(d) => {
            let r = inv_add(stacks(old.player.inventory@), id);
            &&& same_but_pack(old, new)
            &&& same_build(old.player, new.player)
            &&& new.player.hp == old.player.hp && new.player.mp == old.player.mp
            &&& if old.player.gold >= d.value && r.1 {
                &&& stacks(new.player.inventory@) == r.0
                &&& new.player.gold == old.player.gold - d.value
                &&& stat_then_toast(old, new, content, "buys"@, 1,
                    "Bought "@ + d.name@ + " — receipt goes to the clinic fund."@)
            } else {
                &&& stacks(new.player.inventory@) == stacks(old.player.inventory@)
                &&& new.player.gold == old.player.gold
                &&& new.stats == old.stats && new.unlocked == old.unlocked
                &&& toast_view(new.toasts@) == toast_push(toast_view(old.toasts@),
                    if old.player.gold >= d.value {
                        "Backpack is full."@
                    } else {
                        "Not enough gold. The co-op can't run on vibes alone."@
                    })
            }
        },
    }
}

/// What the co-op pays for an item: half its value, rounded toward zero.
pub open spec fn sale_price(value: int) -> int {
    crate::dungeon::quot(value, 2)
}

/// Selling backpack stack `i`: one item leaves the backpack for half its
/// value. Stacks with no definition, or an index past the end, are ignored.
pub open spec fn sold(old: World, new: World, content: Content, i: int) -> bool {
    let inv = stacks(old.player.inventory@);
    if !(0 <= i < inv.len()) || item_def(content.items@, inv[i].0) is None {
        new == old
    } else {
        let d = item_def(content.items@, inv[i].0)->0;
        &&& pack_only(old, new)
        &&& new.player.equipment == old.player.equipment
        &&& stacks(new.player.inventory@) == inv_remove(inv, i)
        &&& new.player.gold == old.player.gold + sale_price(d.value as int)
        &&& toast_view(new.toasts@) == toast_push(toast_view(old.toasts@),
            "Sold "@ + d.name@ + " for "@ + decimal(sale_price(d.value as int)) + " gold."@)
    }
}

/// Dropping one item of backpack stack `i` (an index past the end is ignored).
pub open spec fn dropped(old: World, new: World, content: Content, i: int) -> bool {
    let inv = stacks(old.player.inventory@);
    if !(0 <= i < inv.len()) {
        new == old
    } else {
        &&& pack_only(old, new)
        &&& new.player.equipment == old.player.equipment
        &&& new.player.gold == old.player.gold
        &&& stacks(new.player.inventory@) == inv_remove(inv, i)
        &&& toast_view(new.toasts@) == toast_push(toast_view(old.toasts@),
            "Dropped: "@ + item_name(content.items@, inv[i].0) + " (a comrade will find it)"@)
    }
}

fn slot_of(k: usize) -> (s: &'static str)
    ensures
        s@ == slot_name(k as int),
{
    let j: usize = if k < 6 { k } else { 6 };
    let s = EQUIP_SLOTS[j];
    proof {
        reveal_strlit("weapon");
        reveal_strlit("offhand");
        reveal_strlit("head");
        reveal_strlit("chest");
        reveal_strlit("legs");
        reveal_strlit("boots");
        reveal_strlit("ring");
    }
    s
}

/// Paper-doll slot `k` is the one the slot table names at `k` (the last for
/// any index past the end): what `unequip` takes off is the item worn in
/// `EQUIP_SLOTS[min(k, 6)]`.
pub proof fn lemma_slot_follows_table(k: int)
    requires
        0 <= k,
    ensures
        slot_name(k) == (EQUIP_SLOTS@[if k < 6 { k } else { 6 }])@,
{
    reveal_strlit("weapon");
    reveal_strlit("offhand");
    reveal_strlit("head");
    reveal_strlit("chest");
    reveal_strlit("legs");
    reveal_strlit("boots");
    reveal_strlit("ring");
}

impl World {
    /// Takes off what is worn in paper-doll slot `slot_idx` (see `unequipped`).
    pub fn unequip(&mut self, content: &Content, slot_idx: usize)
        requires
            stack_room(old(self).player),
        ensures
            unequipped(*old(self), *final(self), *content, slot_idx as int),
    {
        let slot = slot_of(slot_idx);
        match worn_exec(&self.player.equipment, slot) {
            None => {},
            Some(id) => {
                if self.player.add_item(id.as_str()) {
                    take_off_exec(&mut self.player.equipment, slot);
                    let name = name_of(content, id.as_str());
                    let msg = message("Unequipped: ", name.as_str());
                    self.toast(msg);
                } else {
                    self.toast(String::from_str("Backpack is full."));
                }
            },
        }
    }
    /// Buys co-op stock line `i` (see `bought`).
    pub fn buy(&mut self, content: &Content, i: usize)
        requires
            i < old(self).shop_stock@.len(),
            stack_room(old(self).player),
            item_def(content.items@, old(self).shop_stock@[i as int]@) matches Some(d) ==> old(self).player.gold - d.value
                <= i64::MAX,
            stat_val(stat_pairs(old(self).stats@), "buys"@) < i64::MAX,
        ensures
            bought(*old(self), *final(self), *content, i as int),
    {
        let id = self.shop_stock[i].clone();
        let d = match content.item(id.as_str()) {
            Some(d) => d,
            None => { return; },
        };
        if self.player.gold >= d.value as i64 {
            if self.player.add_item(id.as_str()) {
                self.player.gold = self.player.gold - d.value as i64;
                proof { lemma_stat_range(self.stats@, "buys"@); }
                self.add_stat("buys", 1, content);
                let mut msg = String::from_str("Bought ");
                push_str(&mut msg, d.name.as_str());
                push_str(&mut msg, " — receipt goes to the clinic fund.");
                self.toast(msg);
            } else {
                self.toast(String::from_str("Backpack is full."));
            }
        } else {
            self.toast(String::from_str("Not enough gold. The co-op can't run on vibes alone."));
        }
    }

    /// Sells one item of backpack stack `i` (see `sold`).
    pub fn sell(&mut self, content: &Content, i: usize)
        requires
            stack_floor(old(self).player),
            i < old(self).player.inventory@.len() ==> (item_def(content.items@, old(self).player.inventory@[i as int].id@)
                matches Some(d) ==> i64::MIN <= old(self).player.gold + sale_price(d.value as int) <= i64::MAX),
        ensures
            sold(*old(self), *final(self), *content, i as int),
    {
        if i >= self.player.inventory.len() {
            return;
        }
        let id = self.player.inventory[i].id.clone();
        let d = match content.item(id.as_str()) {
            Some(d) => d,
            None => { return; },
        };
        self.player.remove_item(i);
        let price = d.value / 2;
        assert(price as int == sale_price(d.value as int));
        self.player.gold = self.player.gold + price as i64;
        let mut msg = String::from_str("Sold ");
        push_str(&mut msg, d.name.as_str());
        push_str(&mut msg, " for ");
        push_int(&mut msg, price as i64);
        push_str(&mut msg, " gold.");
        self.toast(msg);
    }

    /// Drops one item of backpack stack `i` (see `dropped`).
    pub fn drop_item(&mut self, content: &Content, i: usize)
        requires
            stack_floor(old(self).player),
        ensures
            dropped(*old(self), *final(self), *content, i as int),
    {
        if i >= self.player.inventory.len() {
            return;
        }
        let name = name_of(content, self.player.inventory[i].id.as_str());
        self.player.remove_item(i);
        let mut msg = String::from_str("Dropped: ");
        push_str(&mut msg, name.as_str());
        push_str(&mut msg, " (a comrade will find it)");
        self.toast(msg);
    }

    /// Picks up a dropped `id` when it fits in the backpack, with a toast and
    /// a pickup event; returns whether it was taken.
    pub fn pick_up(&mut self, content: &Content, id: &str) -> (taken: bool)
        requires
            stack_room(old(self).player),
        ensures
            taken == inv_add(stacks(old(self).player.inventory@), id@).1,
            stacks(final(self).player.inventory@) == inv_add(stacks(old(self).player.inventory@), id@).0,
            final(self).player.equipment == old(self).player.equipment,
            final(self).player.gold == old(self).player.gold,
            final(self).player.hp == old(self).player.hp && final(self).player.mp == old(self).player.mp,
            same_build_but_gear(old(self).player, final(self).player),
            final(self).map == old(self).map && final(self).chests == old(self).chests,
            final(self).depth == old(self).depth && final(self).shop_stock == old(self).shop_stock,
            final(self).stats == old(self).stats && final(self).unlocked == old(self).unlocked,
            taken ==> final(self).events@ == old(self).events@.push(GameEvent::Pickup),
            taken ==> toast_view(final(self).toasts@) == toast_push(toast_view(old(self).toasts@),
                "Picked up: "@ + item_name(content.items@, id@)),
            !taken ==> final(self).events == old(self).events && final(self).toasts == old(self).toasts,
    {
        if self.player.add_item(id) {
            let name = name_of(content, id);
            self.events.push(GameEvent::Pickup);
            let msg = message("Picked up: ", name.as_str());
            self.toast(msg);
            true
        } else {
            false
        }
    }
}

} // verus!
