//! The player: position, survival counters, combat stats and inventory.

use vstd::prelude::*;
use vstd::arithmetic::div_mod::{lemma_add_mod_noop_right, lemma_small_mod};
use crate::item::{Item, ItemView};

pub mod constants;

verus! {

/// The number `x` brought into the range of `i64` by adding or taking away
/// a multiple of `2^64`.
pub open spec fn wrapped(x: int) -> i64 {
    (((x + 0x8000_0000_0000_0000) % 0x1_0000_0000_0000_0000) - 0x8000_0000_0000_0000) as i64
}

/// A number of the range of `i64` is left as it is.
pub proof fn lemma_wrapped_same(x: i64)
    ensures
        wrapped(x as int) == x,
{
    lemma_small_mod((x + 0x8000_0000_0000_0000) as nat, 0x1_0000_0000_0000_0000);
}

/// Wrapping a sum is the same whether or not one of its parts was wrapped
/// before.
pub proof fn lemma_wrapped_sum(a: int, b: int)
    ensures
        wrapped(wrapped(a) + b) == wrapped(a + b),
{
    let m: int = 0x1_0000_0000_0000_0000;
    let h: int = 0x8000_0000_0000_0000;
    assert(0 <= (a + h) % m < m) by (nonlinear_arith)
        requires
            m > 0,
    ;
    assert(wrapped(a) + h == (a + h) % m);
    lemma_add_mod_noop_right(b, a + h, m);
    assert(0 <= (a + b + h) % m < m) by (nonlinear_arith)
        requires
            m > 0,
    ;
    assert((b + (a + h) % m) % m == (b + (a + h)) % m);
}

/// A stat of the player that buffs raise and lower. What is held can fall
/// below zero, so that a buff that is taken back from a small stat and
/// applied again leaves the stat as it was. The value that counts stays
/// within `0 ..= u32::MAX`.
#[derive(Debug, Clone, Copy, PartialEq, Eq, Hash, Structural)]
pub struct Stat {
    /// What is held: the sum of everything the stat was given, less
    /// everything that was taken from it.
    pub held: i64,
}

impl Stat {
    /// The value that counts: what is held, but no less than zero and no
    /// more than `u32::MAX`.
    pub open spec fn value(self) -> u32 {
        if self.held < 0 {
            0u32
        } else if self.held > u32::MAX {
            u32::MAX
        } else {
            self.held as u32
        }
    }

    /// The stat after `amount` was given to it, or taken from it for a
    /// debuff. What is held wraps around at the ends of `i64`, so that
    /// giving and taking the same amount always cancel.
    pub open spec fn shifted(self, amount: u32, debuff: bool) -> Stat {
        Stat { held: wrapped(if debuff { self.held - amount } else { self.held + amount }) }
    }

    /// The stat after the sum `by` of amounts given and taken.
    pub open spec fn shifted_by(self, by: int) -> Stat {
        Stat { held: wrapped(self.held + by) }
    }

    /// A stat that holds `value`.
    pub fn of(value: u32) -> (r: Stat)
        ensures
            r == (Stat { held: value as i64 }),
            r.value() == value,
    {
        Stat { held: value as i64 }
    }

    /// The value that counts.
    pub fn get(&self) -> (r: u32)
        ensures
            r == self.value(),
    {
        if self.held < 0 {
            0
        } else if self.held > 0xffff_ffff {
            0xffff_ffff
        } else {
            self.held as u32
        }
    }

    /// The stat after `amount` was given to it, or taken from it for a
    /// debuff.
    pub fn shift(self, amount: u32, debuff: bool) -> (r: Stat)
        ensures
            r == self.shifted(amount, debuff),
    {
        let sum: i128 = if debuff {
            self.held as i128 - amount as i128
        } else {
            self.held as i128 + amount as i128
        };
        let held: i128 = if sum > 0x7fff_ffff_ffff_ffff {
            sum - 0x1_0000_0000_0000_0000
        } else if sum < -0x8000_0000_0000_0000 {
            sum + 0x1_0000_0000_0000_0000
        } else {
            sum
        };
        proof {
            let m: int = 0x1_0000_0000_0000_0000;
            let h: int = 0x8000_0000_0000_0000;
            lemma_small_mod((held + h) as nat, m as nat);
            if sum > 0x7fff_ffff_ffff_ffff {
                vstd::arithmetic::div_mod::lemma_mod_sub_multiples_vanish(sum + h, m);
                assert(-m + (sum + h) == held + h);
            } else if sum < -0x8000_0000_0000_0000 {
                vstd::arithmetic::div_mod::lemma_mod_add_multiples_vanish(sum + h, m);
                assert(m + (sum + h) == held + h);
            }
            assert((sum + h) % m == held + h);
        }
        Stat { held: held as i64 }
    }
}

/// The mathematical value of a player.
pub struct PlayerView {
    pub x: u32,
    pub y: u32,
    pub hunger: u32,
    pub thirst: u32,
    pub hunger_cap: Stat,
    pub thirst_cap: Stat,
    pub health: u32,
    pub max_health: Stat,
    pub damage: Stat,
    pub inventory: Seq<ItemView>,
}

/// The player. Hunger and thirst count upwards: lower is better, and the
/// caps say how much the player can bear.
#[derive(Debug, PartialEq, Eq, Hash)]
pub struct Player {
    pub x: u32,
    pub y: u32,
    pub hunger: u32,
    pub thirst: u32,
    pub hunger_cap: Stat,
    pub thirst_cap: Stat,
    pub health: u32,
    pub max_health: Stat,
    pub damage: Stat,
    pub inventory: Vec<Item>,
}

impl View for Player {
    type V = PlayerView;

    open spec fn view(&self) -> PlayerView {
        PlayerView {
            x: self.x,
            y: self.y,
            hunger: self.hunger,
            thirst: self.thirst,
            hunger_cap: self.hunger_cap,
            thirst_cap: self.thirst_cap,
            health: self.health,
            max_health: self.max_health,
            damage: self.damage,
            inventory: self.inventory.deep_view(),
        }
    }
}

impl Clone for Player {
    fn clone(&self) -> (r: Player)
        ensures
            r@ == self@,
    {
        let inventory = self.inventory.clone();
        proof {
            assert(inventory.deep_view() =~= self.inventory.deep_view());
        }
        Player {
            x: self.x,
            y: self.y,
            hunger: self.hunger,
            thirst: self.thirst,
            hunger_cap: self.hunger_cap,
            thirst_cap: self.thirst_cap,
            health: self.health,
            max_health: self.max_health,
            damage: self.damage,
            inventory,
        }
    }
}

impl Default for Player {
    /// A player at the origin with every number at zero and nothing carried.
    fn default() -> (r: Player)
        ensures
            r@ == (PlayerView {
                x: 0,
                y: 0,
                hunger: 0,
                thirst: 0,
                hunger_cap: Stat { held: 0 },
                thirst_cap: Stat { held: 0 },
                health: 0,
                max_health: Stat { held: 0 },
                damage: Stat { held: 0 },
                inventory: Seq::empty(),
            }),
    {
        let inventory: Vec<Item> = Vec::new();
        proof {
            assert(inventory.deep_view() =~= Seq::<ItemView>::empty());
        }
        Player {
            x: 0,
            y: 0,
            hunger: 0,
            thirst: 0,
            hunger_cap: Stat { held: 0 },
            thirst_cap: Stat { held: 0 },
            health: 0,
            max_health: Stat { held: 0 },
            damage: Stat { held: 0 },
            inventory,
        }
    }
}

impl PlayerView {
    /// The player after dropping the item at `index`: the item leaves the
    /// inventory, and its effect is taken back.
    pub open spec fn without_item(self, index: int) -> PlayerView {
        self.inventory[index].unapplied(PlayerView { inventory: self.inventory.remove(index), ..self })
    }
}

impl Player {
    /// Drops the item at `index` of the inventory and takes its effect
    /// back. Returns the item, or `None` if the inventory has no such
    /// index.
    pub fn discard(&mut self, index: usize) -> (r: Option<Item>)
        ensures
            index < old(self)@.inventory.len() ==> r is Some && r->0@ == old(self)@.inventory[index as int]
                && final(self)@ == old(self)@.without_item(index as int),
            index >= old(self)@.inventory.len() ==> r is None && final(self)@ == old(self)@,
    {
        if index < self.inventory.len() {
            let item = self.inventory.remove(index);
            proof {
                assert(self.inventory.deep_view() =~= old(self).inventory.deep_view().remove(index as int));
            }
            item.unapply(self);
            Some(item)
        } else {
            None
        }
    }
}

} // verus!
