//! Items and the reversible changes they make to a player's stats.

use vstd::prelude::*;
use crate::player::{Player, PlayerView, Stat, lemma_wrapped_same, lemma_wrapped_sum};

verus! {

/// A change to one stat of the player: the stat is given the amount when
/// the buff is applied, and the amount is taken from it when the buff is
/// applied as a debuff. The two cancel for every stat: a stat that is
/// smaller than the amount counts as zero while it owes the rest.
#[derive(Debug, Clone, Copy, PartialEq, Eq, Hash, Structural)]
pub enum Buff {
    MaxHealth(u32),
    Damage(u32),
    ThirstCap(u32),
    HungerCap(u32),
}

/// `stat` plus `amount`, held at `u32::MAX`.
pub open spec fn raised(stat: u32, amount: u32) -> u32 {
    if stat + amount > u32::MAX {
        u32::MAX
    } else {
        (stat + amount) as u32
    }
}

/// `stat` minus `amount`, held at zero.
pub open spec fn lowered(stat: u32, amount: u32) -> u32 {
    if stat < amount {
        0u32
    } else {
        (stat - amount) as u32
    }
}

impl Buff {
    /// The amount by which the buff changes its stat.
    pub open spec fn spec_diff(self) -> u32 {
        match self {
            Buff::MaxHealth(d) => d,
            Buff::Damage(d) => d,
            Buff::ThirstCap(d) => d,
            Buff::HungerCap(d) => d,
        }
    }

    /// The stat of `player` that the buff changes.
    pub open spec fn stat(self, player: PlayerView) -> Stat {
        match self {
            Buff::MaxHealth(_) => player.max_health,
            Buff::Damage(_) => player.damage,
            Buff::ThirstCap(_) => player.thirst_cap,
            Buff::HungerCap(_) => player.hunger_cap,
        }
    }

    /// The player after the buff: one stat is shifted, nothing else changes.
    pub open spec fn applied(self, player: PlayerView, debuff: bool) -> PlayerView {
        match self {
            Buff::MaxHealth(d) => PlayerView { max_health: player.max_health.shifted(d, debuff), ..player },
            Buff::Damage(d) => PlayerView { damage: player.damage.shifted(d, debuff), ..player },
            Buff::ThirstCap(d) => PlayerView { thirst_cap: player.thirst_cap.shifted(d, debuff), ..player },
            Buff::HungerCap(d) => PlayerView { hunger_cap: player.hunger_cap.shifted(d, debuff), ..player },
        }
    }

    /// What the buff adds to each stat, counted as negative for a debuff.
    pub open spec fn net(self, debuff: bool) -> Net {
        let amount = if debuff {
            -(self.spec_diff() as int)
        } else {
            self.spec_diff() as int
        };
        match self {
            Buff::MaxHealth(_) => Net { max_health: amount, damage: 0, thirst_cap: 0, hunger_cap: 0 },
            Buff::Damage(_) => Net { max_health: 0, damage: amount, thirst_cap: 0, hunger_cap: 0 },
            Buff::ThirstCap(_) => Net { max_health: 0, damage: 0, thirst_cap: amount, hunger_cap: 0 },
            Buff::HungerCap(_) => Net { max_health: 0, damage: 0, thirst_cap: 0, hunger_cap: amount },
        }
    }

    /// Applies the buff to `player`, as a debuff if `debuff` is set.
    pub fn apply(&self, player: &mut Player, debuff: bool)
        ensures
            final(player)@ == self.applied(old(player)@, debuff),
    {
        match self {
            Buff::MaxHealth(d) => {
                player.max_health = player.max_health.shift(*d, debuff);
            },
            Buff::Damage(d) => {
                player.damage = player.damage.shift(*d, debuff);
            },
            Buff::ThirstCap(d) => {
                player.thirst_cap = player.thirst_cap.shift(*d, debuff);
            },
            Buff::HungerCap(d) => {
                player.hunger_cap = player.hunger_cap.shift(*d, debuff);
            },
        }
    }

    /// The amount by which the buff changes its stat.
    pub fn diff(&self) -> (r: u32)
        ensures
            r == self.spec_diff(),
    {
        match self {
            Buff::MaxHealth(d) | Buff::Damage(d) | Buff::ThirstCap(d) | Buff::HungerCap(d) => *d,
        }
    }
}

/// What a list of buffs adds to each of the four stats.
pub struct Net {
    pub max_health: int,
    pub damage: int,
    pub thirst_cap: int,
    pub hunger_cap: int,
}

impl Net {
    /// The sum of two lists' additions.
    pub open spec fn plus(self, other: Net) -> Net {
        Net {
            max_health: self.max_health + other.max_health,
            damage: self.damage + other.damage,
            thirst_cap: self.thirst_cap + other.thirst_cap,
            hunger_cap: self.hunger_cap + other.hunger_cap,
        }
    }

    /// Nothing added.
    pub open spec fn zero() -> Net {
        Net { max_health: 0, damage: 0, thirst_cap: 0, hunger_cap: 0 }
    }
}

impl PlayerView {
    /// The player with every stat shifted by what `net` adds to it.
    pub open spec fn shifted_by(self, net: Net) -> PlayerView {
        PlayerView {
            max_health: self.max_health.shifted_by(net.max_health),
            damage: self.damage.shifted_by(net.damage),
            thirst_cap: self.thirst_cap.shifted_by(net.thirst_cap),
            hunger_cap: self.hunger_cap.shifted_by(net.hunger_cap),
            ..self
        }
    }
}

/// What a list of buffs adds to each stat, counted as negative if the list
/// is applied as debuffs.
pub open spec fn net_of(buffs: Seq<Buff>, debuff: bool) -> Net
    decreases buffs.len(),
{
    if buffs.len() == 0 {
        Net::zero()
    } else {
        net_of(buffs.drop_last(), debuff).plus(buffs.last().net(debuff))
    }
}

/// The player after a list of buffs, applied in order.
pub open spec fn applied_all(buffs: Seq<Buff>, player: PlayerView, debuff: bool) -> PlayerView
    decreases buffs.len(),
{
    if buffs.len() == 0 {
        player
    } else {
        buffs.last().applied(applied_all(buffs.drop_last(), player, debuff), debuff)
    }
}

/// Buffs change the four stats they name and nothing else: the player's
/// place, hunger, thirst, health and inventory stay as they are.
pub proof fn lemma_applied_all_keeps(buffs: Seq<Buff>, player: PlayerView, debuff: bool)
    ensures
        applied_all(buffs, player, debuff).x == player.x,
        applied_all(buffs, player, debuff).y == player.y,
        applied_all(buffs, player, debuff).hunger == player.hunger,
        applied_all(buffs, player, debuff).thirst == player.thirst,
        applied_all(buffs, player, debuff).health == player.health,
        applied_all(buffs, player, debuff).inventory == player.inventory,
    decreases buffs.len(),
{
    if buffs.len() > 0 {
        lemma_applied_all_keeps(buffs.drop_last(), player, debuff);
    }
}

/// The mathematical value of an item.
pub struct ItemView {
    pub name: Seq<char>,
    pub buffs: Seq<Buff>,
    pub debuffs: Seq<Buff>,
    pub id: u32,
}

impl ItemView {
    /// The player after the item's effect: every buff applied, then every
    /// debuff applied as a debuff.
    pub open spec fn applied(self, player: PlayerView) -> PlayerView {
        applied_all(self.debuffs, applied_all(self.buffs, player, false), true)
    }

    /// The player after the item's effect was taken back: every buff
    /// applied as a debuff, then every debuff applied as a buff.
    pub open spec fn unapplied(self, player: PlayerView) -> PlayerView {
        applied_all(self.debuffs, applied_all(self.buffs, player, true), false)
    }

    /// An item's effect changes the four stats that buffs name and nothing
    /// else.
    pub proof fn lemma_applied_keeps(self, player: PlayerView)
        ensures
            self.applied(player).x == player.x,
            self.applied(player).y == player.y,
            self.applied(player).hunger == player.hunger,
            self.applied(player).thirst == player.thirst,
            self.applied(player).health == player.health,
            self.applied(player).inventory == player.inventory,
            self.unapplied(player).x == player.x,
            self.unapplied(player).y == player.y,
            self.unapplied(player).hunger == player.hunger,
            self.unapplied(player).thirst == player.thirst,
            self.unapplied(player).health == player.health,
            self.unapplied(player).inventory == player.inventory,
    {
        lemma_applied_all_keeps(self.buffs, player, false);
        lemma_applied_all_keeps(self.debuffs, applied_all(self.buffs, player, false), true);
        lemma_applied_all_keeps(self.buffs, player, true);
        lemma_applied_all_keeps(self.debuffs, applied_all(self.buffs, player, true), false);
    }
}

/// Something the player can carry. Picking it up applies its buffs and, as
/// the price, its debuffs.
#[derive(Debug, PartialEq, Eq, Hash)]
pub struct Item {
    pub name: String,
    pub buffs: Vec<Buff>,
    pub debuffs: Vec<Buff>,
    pub id: u32,
}

impl View for Item {
    type V = ItemView;

    open spec fn view(&self) -> ItemView {
        ItemView { name: self.name@, buffs: self.buffs@, debuffs: self.debuffs@, id: self.id }
    }
}

impl DeepView for Item {
    type V = ItemView;

    open spec fn deep_view(&self) -> ItemView {
        self@
    }
}

impl Clone for Item {
    fn clone(&self) -> (r: Item)
        ensures
            r@ == self@,
    {
        Item {
            name: self.name.clone(),
            buffs: self.buffs.clone(),
            debuffs: self.debuffs.clone(),
            id: self.id,
        }
    }
}

impl Default for Item {
    /// An item without a name or an effect.
    fn default() -> (r: Item)
        ensures
            r@ == (ItemView { name: Seq::empty(), buffs: Seq::empty(), debuffs: Seq::empty(), id: 0 }),
    {
        Item { name: String::new(), buffs: Vec::new(), debuffs: Vec::new(), id: 0 }
    }
}

impl Item {
    /// An item with buffs and debuffs.
    pub fn full(name: &str, id: u32, buffs: Vec<Buff>, debuffs: Vec<Buff>) -> (r: Item)
        ensures
            r@ == (ItemView { name: name@, buffs: buffs@, debuffs: debuffs@, id }),
    {
        Item { name: name.to_owned(), buffs, debuffs, id }
    }

    /// An item with buffs only.
    pub fn buffs(name: &str, id: u32, buffs: Vec<Buff>) -> (r: Item)
        ensures
            r@ == (ItemView { name: name@, buffs: buffs@, debuffs: Seq::empty(), id }),
    {
        Item { name: name.to_owned(), buffs, debuffs: Vec::new(), id }
    }

    /// An item with a single buff.
    pub fn basic(name: &str, id: u32, buff: Buff) -> (r: Item)
        ensures
            r@ == (ItemView { name: name@, buffs: seq![buff], debuffs: Seq::empty(), id }),
    {
        let mut buffs = Vec::new();
        buffs.push(buff);
        Item { name: name.to_owned(), buffs, debuffs: Vec::new(), id }
    }


    /// Applies every buff, then every debuff as a debuff.
    pub fn apply(&self, player: &mut Player)
        ensures
            final(player)@ == self@.applied(old(player)@),
    {
        apply_all(&self.buffs, player, false);
        apply_all(&self.debuffs, player, true);
    }

    /// Takes every buff back, then every debuff.
    pub fn unapply(&self, player: &mut Player)
        ensures
            final(player)@ == self@.unapplied(old(player)@),
    {
        apply_all(&self.buffs, player, true);
        apply_all(&self.debuffs, player, false);
    }
}

fn apply_all(buffs: &Vec<Buff>, player: &mut Player, debuff: bool)
    ensures
        final(player)@ == applied_all(buffs@, old(player)@, debuff),
{
    let mut i: usize = 0;
    while i < buffs.len()
        invariant
            i <= buffs.len(),
            player@ == applied_all(buffs@.take(i as int), old(player)@, debuff),
        decreases buffs.len() - i,
    {
        proof {
            assert(buffs@.take(i + 1).drop_last() =~= buffs@.take(i as int));
        }
        buffs[i].apply(player, debuff);
        i = i + 1;
    }
    proof {
        assert(buffs@.take(i as int) =~= buffs@);
    }
}

/// Shifting by nothing leaves the player as it is.
pub proof fn lemma_shifted_by_zero(player: PlayerView)
    ensures
        player.shifted_by(Net::zero()) == player,
{
    lemma_wrapped_same(player.max_health.held);
    lemma_wrapped_same(player.damage.held);
    lemma_wrapped_same(player.thirst_cap.held);
    lemma_wrapped_same(player.hunger_cap.held);
}

/// Shifting twice is shifting by the sum.
pub proof fn lemma_shifted_by_twice(player: PlayerView, first: Net, second: Net)
    ensures
        player.shifted_by(first).shifted_by(second) == player.shifted_by(first.plus(second)),
{
    lemma_wrapped_sum(player.max_health.held + first.max_health, second.max_health);
    lemma_wrapped_sum(player.damage.held + first.damage, second.damage);
    lemma_wrapped_sum(player.thirst_cap.held + first.thirst_cap, second.thirst_cap);
    lemma_wrapped_sum(player.hunger_cap.held + first.hunger_cap, second.hunger_cap);
}

/// A list of buffs shifts the player by what it adds.
pub proof fn lemma_applied_all_net(buffs: Seq<Buff>, player: PlayerView, debuff: bool)
    ensures
        applied_all(buffs, player, debuff) == player.shifted_by(net_of(buffs, debuff)),
    decreases buffs.len(),
{
    if buffs.len() == 0 {
        lemma_shifted_by_zero(player);
    } else {
        let front = buffs.drop_last();
        let last = buffs.last();
        lemma_applied_all_net(front, player, debuff);
        let before = player.shifted_by(net_of(front, debuff));
        lemma_shifted_by_zero(before);
        lemma_shifted_by_twice(player, net_of(front, debuff), last.net(debuff));
        assert(last.applied(before, debuff) == before.shifted_by(last.net(debuff))) by {
            lemma_wrapped_same(before.max_health.held);
            lemma_wrapped_same(before.damage.held);
            lemma_wrapped_same(before.thirst_cap.held);
            lemma_wrapped_same(before.hunger_cap.held);
        }
    }
}

/// What a list takes as debuffs is what it gives as buffs.
pub proof fn lemma_net_cancels(buffs: Seq<Buff>)
    ensures
        net_of(buffs, true).plus(net_of(buffs, false)) == Net::zero(),
        net_of(buffs, false).plus(net_of(buffs, true)) == Net::zero(),
    decreases buffs.len(),
{
    if buffs.len() > 0 {
        lemma_net_cancels(buffs.drop_last());
    }
}

/// Taking a buff back and applying it again leaves the player as it was,
/// whatever the buff and whatever the player: a stat that is smaller than
/// the amount holds what it owes, and has its old value again afterwards.
pub proof fn lemma_unapply_then_apply(buff: Buff, player: PlayerView)
    ensures
        buff.applied(buff.applied(player, true), false) == player,
{
    let held = buff.stat(player).held;
    lemma_wrapped_sum(held - buff.spec_diff(), buff.spec_diff() as int);
    lemma_wrapped_same(held);
}

/// Applying a buff and taking it back leaves the player as it was.
pub proof fn lemma_apply_then_unapply(buff: Buff, player: PlayerView)
    ensures
        buff.applied(buff.applied(player, false), true) == player,
{
    let held = buff.stat(player).held;
    lemma_wrapped_sum(held + buff.spec_diff(), -(buff.spec_diff() as int));
    lemma_wrapped_same(held);
}

/// Taking an item's effect back and applying it again leaves the player as
/// it was, and so does applying it and taking it back.
pub proof fn lemma_item_unapply_then_apply(item: ItemView, player: PlayerView)
    ensures
        item.applied(item.unapplied(player)) == player,
        item.unapplied(item.applied(player)) == player,
{
    let give = net_of(item.buffs, false);
    let take = net_of(item.buffs, true);
    let cost = net_of(item.debuffs, true);
    let back = net_of(item.debuffs, false);
    lemma_net_cancels(item.buffs);
    lemma_net_cancels(item.debuffs);
    lemma_shifted_by_zero(player);

    let a = applied_all(item.buffs, player, true);
    lemma_applied_all_net(item.buffs, player, true);
    let b = applied_all(item.debuffs, a, false);
    lemma_applied_all_net(item.debuffs, a, false);
    let c = applied_all(item.buffs, b, false);
    lemma_applied_all_net(item.buffs, b, false);
    lemma_applied_all_net(item.debuffs, c, true);
    lemma_shifted_by_twice(player, take, back);
    lemma_shifted_by_twice(player, take.plus(back), give);
    lemma_shifted_by_twice(player, take.plus(back).plus(give), cost);
    assert(take.plus(back).plus(give).plus(cost) == Net::zero());

    let e = applied_all(item.buffs, player, false);
    lemma_applied_all_net(item.buffs, player, false);
    let f = applied_all(item.debuffs, e, true);
    lemma_applied_all_net(item.debuffs, e, true);
    let g = applied_all(item.buffs, f, true);
    lemma_applied_all_net(item.buffs, f, true);
    lemma_applied_all_net(item.debuffs, g, false);
    lemma_shifted_by_twice(player, give, cost);
    lemma_shifted_by_twice(player, give.plus(cost), take);
    lemma_shifted_by_twice(player, give.plus(cost).plus(take), back);
    assert(give.plus(cost).plus(take).plus(back) == Net::zero());
}

} // verus!
