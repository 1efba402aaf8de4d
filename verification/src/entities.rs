//! Gear and loadouts: what a character carries, and the slot rules for equipping it.
use vstd::prelude::*;
use crate::item::Item;

verus! {

/// One piece of gear: an item in a role, or an innate ability of a creature.
#[derive(Clone, Copy, Debug, PartialEq, Eq, Hash, Structural)]
pub enum Gear {
    Weapon(Item),
    Armor(Item),
    Grenade(Item),
    Device(Item),
    Loot(Item),
    InnateGun { damage: i32 },
    InnateGrenadeThrow { min_range: i32 },
    InnateSporeEmit,
    InnateGrab,
    NaturalArmor { dr: i32 },
}

impl Gear {
    pub open spec fn spec_is_weapon(self) -> bool {
        self is Weapon
    }

    pub open spec fn spec_is_armor(self) -> bool {
        self is Armor || self is NaturalArmor
    }

    pub open spec fn spec_is_grenade(self) -> bool {
        self is Grenade
    }

    pub open spec fn spec_is_ability(self) -> bool {
        self is InnateGun || self is InnateGrenadeThrow || self is InnateSporeEmit || self is InnateGrab
    }

    pub fn is_weapon(self) -> (b: bool)
        ensures
            b == self.spec_is_weapon(),
    {
        match self {
            Gear::Weapon(_) => true,
            _ => false,
        }
    }

    pub fn is_armor(self) -> (b: bool)
        ensures
            b == self.spec_is_armor(),
    {
        match self {
            Gear::Armor(_) | Gear::NaturalArmor { .. } => true,
            _ => false,
        }
    }

    pub fn is_grenade(self) -> (b: bool)
        ensures
            b == self.spec_is_grenade(),
    {
        match self {
            Gear::Grenade(_) => true,
            _ => false,
        }
    }

    pub fn is_ability(self) -> (b: bool)
        ensures
            b == self.spec_is_ability(),
    {
        match self {
            Gear::InnateGun { .. } | Gear::InnateGrenadeThrow { .. } | Gear::InnateSporeEmit | Gear::InnateGrab => true,
            _ => false,
        }
    }

    /// Extra weapon slots this gear grants: none, for every kind of gear.
    pub fn weapon_capacity_bonus(self) -> (n: u32)
        ensures
            n == 0,
    {
        0
    }

    /// Extra grenade slots this gear grants: none, for every kind of gear.
    pub fn grenade_capacity_bonus(self) -> (n: u32)
        ensures
            n == 0,
    {
        0
    }
}

/// A slot of a loadout: the gear, how many of it, and its cooldown and running timer.
#[derive(Clone, Copy, Debug)]
pub struct GearSlot {
    pub gear: Gear,
    pub count: u32,
    pub cooldown: u32,
    pub timer: u32,
}

impl GearSlot {
    /// One piece of gear with no cooldown.
    pub fn passive(gear: Gear) -> (s: Self)
        ensures
            s == (GearSlot { gear, count: 1, cooldown: 0, timer: 0 }),
    {
        GearSlot { gear, count: 1, cooldown: 0, timer: 0 }
    }

    /// An ability usable every `cooldown` steps.
    pub fn ability(gear: Gear, cooldown: u32) -> (s: Self)
        ensures
            s == (GearSlot { gear, count: 1, cooldown, timer: 0 }),
    {
        GearSlot { gear, count: 1, cooldown, timer: 0 }
    }

    /// A stack of `count` pieces of the same gear.
    pub fn stacked(gear: Gear, count: u32) -> (s: Self)
        ensures
            s == (GearSlot { gear, count, cooldown: 0, timer: 0 }),
    {
        GearSlot { gear, count, cooldown: 0, timer: 0 }
    }
}

/// The item a slot holds as a weapon.
pub open spec fn weapon_of(g: Gear) -> Option<Item> {
    match g {
        Gear::Weapon(i) => Some(i),
        _ => None,
    }
}

/// The item a slot holds as armor (natural armor holds none).
pub open spec fn armor_of(g: Gear) -> Option<Item> {
    match g {
        Gear::Armor(i) => Some(i),
        _ => None,
    }
}

pub open spec fn grenade_of(g: Gear) -> Option<Item> {
    match g {
        Gear::Grenade(i) => Some(i),
        _ => None,
    }
}

pub open spec fn device_of(g: Gear) -> Option<Item> {
    match g {
        Gear::Device(i) => Some(i),
        _ => None,
    }
}

/// The item a slot leaves behind as loot: anything but an innate ability or natural armor.
pub open spec fn loot_of(g: Gear) -> Option<Item> {
    match g {
        Gear::Weapon(i) => Some(i),
        Gear::Armor(i) => Some(i),
        Gear::Grenade(i) => Some(i),
        Gear::Device(i) => Some(i),
        Gear::Loot(i) => Some(i),
        _ => None,
    }
}

/// The first item that `f` finds in the slots, front to back.
pub open spec fn first_item(s: Seq<GearSlot>, f: spec_fn(Gear) -> Option<Item>) -> Option<Item>
    decreases s.len(),
{
    if s.len() == 0 {
        None
    } else {
        match first_item(s.drop_last(), f) {
            Some(i) => Some(i),
            None => f(s.last().gear),
        }
    }
}

/// The positions and items of the slots in which `f` finds an item, front to back.
pub open spec fn indexed_items(s: Seq<GearSlot>, f: spec_fn(Gear) -> Option<Item>) -> Seq<(usize, Item)>
    decreases s.len(),
{
    if s.len() == 0 {
        Seq::empty()
    } else {
        let rest = indexed_items(s.drop_last(), f);
        match f(s.last().gear) {
            Some(i) => rest.push(((s.len() - 1) as usize, i)),
            None => rest,
        }
    }
}

/// The slots that satisfy `p`, in order.
pub open spec fn keep_where(s: Seq<GearSlot>, p: spec_fn(GearSlot) -> bool) -> Seq<GearSlot>
    decreases s.len(),
{
    if s.len() == 0 {
        Seq::empty()
    } else if p(s.last()) {
        keep_where(s.drop_last(), p).push(s.last())
    } else {
        keep_where(s.drop_last(), p)
    }
}

/// How many slots satisfy `p`.
pub open spec fn count_where(s: Seq<GearSlot>, p: spec_fn(GearSlot) -> bool) -> nat
    decreases s.len(),
{
    if s.len() == 0 {
        0
    } else {
        count_where(s.drop_last(), p) + if p(s.last()) { 1nat } else { 0nat }
    }
}

/// The sum of `f` over the slots.
pub open spec fn sum_of(s: Seq<GearSlot>, f: spec_fn(GearSlot) -> int) -> int
    decreases s.len(),
{
    if s.len() == 0 {
        0
    } else {
        sum_of(s.drop_last(), f) + f(s.last())
    }
}

/// Damage reduction a slot contributes: its armor's defense bonus, or its natural armor.
pub open spec fn slot_dr(s: GearSlot) -> int {
    match s.gear {
        Gear::Armor(item) => item.spec_defense_bonus() as int,
        Gear::NaturalArmor { dr } => dr as int,
        _ => 0,
    }
}

/// Grenades a slot holds.
pub open spec fn slot_grenades(s: GearSlot) -> int {
    if s.gear.spec_is_grenade() { s.count as int } else { 0 }
}

/// Every running total of `f` over a prefix of the slots fits in an `i32`.
pub open spec fn prefix_sums_fit_i32(s: Seq<GearSlot>, f: spec_fn(GearSlot) -> int) -> bool {
    forall|k: int| 0 <= k <= s.len() ==> i32::MIN <= #[trigger] sum_of(s.subrange(0, k), f) <= i32::MAX
}

/// Every running total of `f` over a prefix of the slots fits in a `u32`.
pub open spec fn prefix_sums_fit_u32(s: Seq<GearSlot>, f: spec_fn(GearSlot) -> int) -> bool {
    forall|k: int| 0 <= k <= s.len() ==> 0 <= #[trigger] sum_of(s.subrange(0, k), f) <= u32::MAX
}

/// The gear is innate ability number `kind`: the gun, the grenade throw, the spore cloud or
/// the grab.
pub open spec fn is_ability_kind(g: Gear, kind: u8) -> bool {
    if kind == 0 {
        g is InnateGun
    } else if kind == 1 {
        g is InnateGrenadeThrow
    } else if kind == 2 {
        g is InnateSporeEmit
    } else if kind == 3 {
        g is InnateGrab
    } else {
        false
    }
}

pub open spec fn is_weapon_slot(s: GearSlot) -> bool {
    s.gear.spec_is_weapon()
}

pub open spec fn not_weapon_slot(s: GearSlot) -> bool {
    !s.gear.spec_is_weapon()
}

pub open spec fn not_armor_item_slot(s: GearSlot) -> bool {
    !(s.gear is Armor)
}

/// The first weapon among the slots.
pub open spec fn spec_weapon(s: Seq<GearSlot>) -> Option<Item> {
    first_item(s, |g: Gear| weapon_of(g))
}

/// The first armor item among the slots.
pub open spec fn spec_armor_item(s: Seq<GearSlot>) -> Option<Item> {
    first_item(s, |g: Gear| armor_of(g))
}

/// Total damage reduction of the slots.
pub open spec fn spec_armor_dr(s: Seq<GearSlot>) -> int {
    sum_of(s, |t: GearSlot| slot_dr(t))
}

/// Total grenades held in the slots.
pub open spec fn spec_grenade_count(s: Seq<GearSlot>) -> int {
    sum_of(s, |t: GearSlot| slot_grenades(t))
}

/// Number of weapon slots.
pub open spec fn spec_weapon_count(s: Seq<GearSlot>) -> nat {
    count_where(s, |t: GearSlot| is_weapon_slot(t))
}

pub open spec fn spec_grenade_slots(s: Seq<GearSlot>) -> Seq<(usize, Item)> {
    indexed_items(s, |g: Gear| grenade_of(g))
}

pub open spec fn spec_device_slots(s: Seq<GearSlot>) -> Seq<(usize, Item)> {
    indexed_items(s, |g: Gear| device_of(g))
}

pub open spec fn spec_lootable(s: Seq<GearSlot>) -> Seq<(Item, u32)>
    decreases s.len(),
{
    if s.len() == 0 {
        Seq::empty()
    } else {
        match loot_of(s.last().gear) {
            Some(i) => spec_lootable(s.drop_last()).push((i, s.last().count)),
            None => spec_lootable(s.drop_last()),
        }
    }
}

/// The slots without their weapons.
pub open spec fn without_weapons(s: Seq<GearSlot>) -> Seq<GearSlot> {
    keep_where(s, |t: GearSlot| not_weapon_slot(t))
}

/// The slots without their armor items.
pub open spec fn without_armor(s: Seq<GearSlot>) -> Seq<GearSlot> {
    keep_where(s, |t: GearSlot| not_armor_item_slot(t))
}

/// Why `gear` cannot join the slots `s`, if it cannot.
pub open spec fn spec_rejection(s: Seq<GearSlot>, gear: Gear) -> Option<Rejection> {
    match gear {
        Gear::Weapon(_) => if spec_weapon_count(s) as u32 >= 1 {
            Some(Rejection::WeaponSlotFull { count: spec_weapon_count(s) as u32, max: 1 })
        } else {
            None
        },
        Gear::Armor(_) => if spec_armor_item(s) is Some { Some(Rejection::ArmorSlotFull) } else { None },
        Gear::Grenade(_) => if spec_grenade_count(s) >= 3 {
            Some(Rejection::GrenadeSlotsFull { count: spec_grenade_count(s) as u32, max: 3 })
        } else {
            None
        },
        _ => None,
    }
}

/// Why gear cannot be added to a loadout.
#[derive(Clone, Copy, Debug, PartialEq, Eq, Structural)]
pub enum Rejection {
    /// Every weapon slot is taken: how many weapons, out of how many slots.
    WeaponSlotFull { count: u32, max: u32 },
    /// An armor item is already worn.
    ArmorSlotFull,
    /// The grenade slots are full: how many grenades, out of how many.
    GrenadeSlotsFull { count: u32, max: u32 },
}

/// The decimal digit `d` as text.
pub open spec fn digit_text(d: nat) -> Seq<char> {
    if d == 0 { "0"@ } else if d == 1 { "1"@ } else if d == 2 { "2"@ } else if d == 3 { "3"@ } else if d == 4 { "4"@ }
    else if d == 5 { "5"@ } else if d == 6 { "6"@ } else if d == 7 { "7"@ } else if d == 8 { "8"@ } else { "9"@ }
}

/// `n` written in decimal.
pub open spec fn decimal(n: nat) -> Seq<char>
    decreases n,
{
    if n < 10 { digit_text(n) } else { decimal(n / 10) + digit_text(n % 10) }
}

/// The message the game shows for full slots: `<what> full (<count>/<max>)`.
pub open spec fn slots_full_text(what: Seq<char>, count: u32, max: u32) -> Seq<char> {
    what + " full ("@ + decimal(count as nat) + "/"@ + decimal(max as nat) + ")"@
}

/// The message for a refused piece of gear.
pub open spec fn rejection_text(r: Rejection) -> Seq<char> {
    match r {
        Rejection::WeaponSlotFull { count, max } => slots_full_text("weapon slot"@, count, max),
        Rejection::ArmorSlotFull => "armor slot full"@,
        Rejection::GrenadeSlotsFull { count, max } => slots_full_text("grenade slots"@, count, max),
    }
}

/// Appends `n` in decimal.
fn push_decimal(s: &mut String, n: u32)
    ensures
        final(s)@ == old(s)@ + decimal(n as nat),
    decreases n,
{
    if n >= 10 {
        push_decimal(s, n / 10);
    }
    let d = n % 10;
    let text: &str = if d == 0 { "0" } else if d == 1 { "1" } else if d == 2 { "2" } else if d == 3 { "3" } else if d == 4 { "4" }
        else if d == 5 { "5" } else if d == 6 { "6" } else if d == 7 { "7" } else if d == 8 { "8" } else { "9" };
    assert(text@ == digit_text(d as nat));
    s.append(text);
    proof {
        if n < 10 {
            assert(d == n);
        }
    }
    assert(s@ =~= old(s)@ + decimal(n as nat));
}

/// The message the game shows for full slots.
fn slots_full_message(what: &str, count: u32, max: u32) -> (m: String)
    ensures
        m@ == slots_full_text(what@, count, max),
{
    let mut m = String::from_str(what);
    m.append(" full (");
    push_decimal(&mut m, count);
    m.append("/");
    push_decimal(&mut m, max);
    m.append(")");
    assert(m@ =~= slots_full_text(what@, count, max));
    m
}

/// The gear a character carries, slot by slot.
#[derive(Clone, Debug)]
pub struct Loadout {
    pub gear: Vec<GearSlot>,
}

impl Default for Loadout {
    fn default() -> (l: Self)
        ensures
            l.gear@ == Seq::<GearSlot>::empty(),
    {
        Loadout { gear: Vec::new() }
    }
}

impl Loadout {
    pub fn new(gear: Vec<GearSlot>) -> (l: Self)
        ensures
            l.gear@ == gear@,
    {
        Loadout { gear }
    }

    /// A loadout holding a copy of `gear`.
    pub fn from_gear(gear: &[GearSlot]) -> (l: Self)
        ensures
            l.gear@ == gear@,
    {
        let mut v: Vec<GearSlot> = Vec::new();
        let mut i: usize = 0;
        while i < gear.len()
            invariant
                i <= gear@.len(),
                v@ == gear@.subrange(0, i as int),
            decreases gear@.len() - i,
        {
            v.push(gear[i]);
            i = i + 1;
        }
        assert(v@ == gear@);
        Loadout { gear: v }
    }

    /// The first weapon carried.
    pub fn weapon(&self) -> (r: Option<Item>)
        ensures
            r == spec_weapon(self.gear@),
    {
        let mut i: usize = 0;
        while i < self.gear.len()
            invariant
                i <= self.gear@.len(),
                spec_weapon(self.gear@.subrange(0, i as int)) is None,
            decreases self.gear@.len() - i,
        {
            let ghost pre = self.gear@.subrange(0, i as int);
            assert(self.gear@.subrange(0, i + 1).drop_last() == pre);
            match self.gear[i].gear {
                Gear::Weapon(item) => {
                    proof { lemma_first_item_extend(self.gear@, |g: Gear| weapon_of(g), i as int + 1); }
                    return Some(item);
                },
                _ => {},
            }
            i = i + 1;
        }
        assert(self.gear@.subrange(0, self.gear@.len() as int) == self.gear@);
        None
    }

    /// The attack bonus of the first weapon, or zero unarmed.
    pub fn weapon_attack_bonus(&self) -> (b: i32)
        ensures
            b == match spec_weapon(self.gear@) {
                Some(w) => w.spec_attack_bonus(),
                None => 0,
            },
    {
        match self.weapon() {
            Some(w) => w.attack_bonus(),
            None => 0,
        }
    }

    /// The first armor item worn (natural armor is not an item).
    pub fn armor_item(&self) -> (r: Option<Item>)
        ensures
            r == spec_armor_item(self.gear@),
    {
        let mut i: usize = 0;
        while i < self.gear.len()
            invariant
                i <= self.gear@.len(),
                spec_armor_item(self.gear@.subrange(0, i as int)) is None,
            decreases self.gear@.len() - i,
        {
            assert(self.gear@.subrange(0, i + 1).drop_last() == self.gear@.subrange(0, i as int));
            match self.gear[i].gear {
                Gear::Armor(item) => {
                    proof { lemma_first_item_extend(self.gear@, |g: Gear| armor_of(g), i as int + 1); }
                    return Some(item);
                },
                _ => {},
            }
            i = i + 1;
        }
        assert(self.gear@.subrange(0, self.gear@.len() as int) == self.gear@);
        None
    }

    /// Total damage reduction: every armor item's defense bonus plus any natural armor.
    pub fn armor_dr(&self) -> (dr: i32)
        requires
            prefix_sums_fit_i32(self.gear@, |t: GearSlot| slot_dr(t)),
        ensures
            dr == spec_armor_dr(self.gear@),
    {
        let mut total: i32 = 0;
        let mut i: usize = 0;
        assert(self.gear@.subrange(0, 0) == Seq::<GearSlot>::empty());
        while i < self.gear.len()
            invariant
                i <= self.gear@.len(),
                prefix_sums_fit_i32(self.gear@, |t: GearSlot| slot_dr(t)),
                total == spec_armor_dr(self.gear@.subrange(0, i as int)),
            decreases self.gear@.len() - i,
        {
            assert(self.gear@.subrange(0, i + 1).drop_last() == self.gear@.subrange(0, i as int));
            assert(i32::MIN <= sum_of(self.gear@.subrange(0, i + 1), |t: GearSlot| slot_dr(t)) <= i32::MAX);
            let add: i32 = match self.gear[i].gear {
                Gear::Armor(item) => item.defense_bonus(),
                Gear::NaturalArmor { dr } => dr,
                _ => 0,
            };
            total = total + add;
            i = i + 1;
        }
        assert(self.gear@.subrange(0, self.gear@.len() as int) == self.gear@);
        total
    }
}

impl Loadout {
    /// Positions and items of the grenade slots, front to back.
    pub fn grenade_slots(&self) -> (v: Vec<(usize, Item)>)
        ensures
            v@ == spec_grenade_slots(self.gear@),
    {
        let mut v: Vec<(usize, Item)> = Vec::new();
        let mut i: usize = 0;
        while i < self.gear.len()
            invariant
                i <= self.gear@.len(),
                v@ == spec_grenade_slots(self.gear@.subrange(0, i as int)),
            decreases self.gear@.len() - i,
        {
            assert(self.gear@.subrange(0, i + 1).drop_last() == self.gear@.subrange(0, i as int));
            match self.gear[i].gear {
                Gear::Grenade(item) => v.push((i, item)),
                _ => {},
            }
            i = i + 1;
        }
        assert(self.gear@.subrange(0, self.gear@.len() as int) == self.gear@);
        v
    }

    /// The `idx`-th grenade carried.
    pub fn grenade_at(&self, idx: usize) -> (r: Option<Item>)
        ensures
            r == if idx < spec_grenade_slots(self.gear@).len() {
                Some(spec_grenade_slots(self.gear@)[idx as int].1)
            } else {
                None
            },
    {
        let slots = self.grenade_slots();
        if idx < slots.len() {
            Some(slots[idx].1)
        } else {
            None
        }
    }

    /// Positions and items of the device slots, front to back.
    pub fn device_slots(&self) -> (v: Vec<(usize, Item)>)
        ensures
            v@ == spec_device_slots(self.gear@),
    {
        let mut v: Vec<(usize, Item)> = Vec::new();
        let mut i: usize = 0;
        while i < self.gear.len()
            invariant
                i <= self.gear@.len(),
                v@ == spec_device_slots(self.gear@.subrange(0, i as int)),
            decreases self.gear@.len() - i,
        {
            assert(self.gear@.subrange(0, i + 1).drop_last() == self.gear@.subrange(0, i as int));
            match self.gear[i].gear {
                Gear::Device(item) => v.push((i, item)),
                _ => {},
            }
            i = i + 1;
        }
        assert(self.gear@.subrange(0, self.gear@.len() as int) == self.gear@);
        v
    }

    /// Position of the first slot holding the innate ability `kind`.
    fn find_ability(&self, kind: u8) -> (r: Option<usize>)
        ensures
            match r {
                Some(i) => i < self.gear@.len() && is_ability_kind(self.gear@[i as int].gear, kind)
                    && forall|j: int| 0 <= j < i ==> !is_ability_kind(#[trigger] self.gear@[j].gear, kind),
                None => forall|j: int| 0 <= j < self.gear@.len() ==> !is_ability_kind(#[trigger] self.gear@[j].gear, kind),
            },
    {
        let mut i: usize = 0;
        while i < self.gear.len()
            invariant
                i <= self.gear@.len(),
                forall|j: int| 0 <= j < i ==> !is_ability_kind(#[trigger] self.gear@[j].gear, kind),
            decreases self.gear@.len() - i,
        {
            let hit = match self.gear[i].gear {
                Gear::InnateGun { .. } => kind == 0,
                Gear::InnateGrenadeThrow { .. } => kind == 1,
                Gear::InnateSporeEmit => kind == 2,
                Gear::InnateGrab => kind == 3,
                _ => false,
            };
            if hit {
                return Some(i);
            }
            i = i + 1;
        }
        None
    }

    /// The slot of the first innate ability `kind` of a loadout, for writing: the slot as it was,
    /// and the loadout updated at that position with whatever the slot becomes.
    pub open spec fn ability_slot_mut(old_gear: Seq<GearSlot>, new_gear: Seq<GearSlot>, kind: u8, r: Option<(GearSlot, GearSlot)>) -> bool {
        match r {
            Some((before, after)) => exists|i: int| 0 <= i < old_gear.len() && is_ability_kind(old_gear[i].gear, kind)
                && (forall|j: int| 0 <= j < i ==> !is_ability_kind(#[trigger] old_gear[j].gear, kind))
                && before == old_gear[i] && new_gear == old_gear.update(i, after),
            None => (forall|j: int| 0 <= j < old_gear.len() ==> !is_ability_kind(#[trigger] old_gear[j].gear, kind))
                && new_gear == old_gear,
        }
    }

    /// The first innate gun slot, for updating its timer.
    pub fn gun_mut(&mut self) -> (r: Option<&mut GearSlot>)
        ensures
            Self::ability_slot_mut(old(self).gear@, final(self).gear@, 0, match r {
                Some(s) => Some((*s, *final(s))),
                None => None,
            }),
    {
        match self.find_ability(0) {
            Some(i) => Some(&mut self.gear[i]),
            None => None,
        }
    }

    /// The first innate grenade throw slot, for updating its timer.
    pub fn grenade_throw_mut(&mut self) -> (r: Option<&mut GearSlot>)
        ensures
            Self::ability_slot_mut(old(self).gear@, final(self).gear@, 1, match r {
                Some(s) => Some((*s, *final(s))),
                None => None,
            }),
    {
        match self.find_ability(1) {
            Some(i) => Some(&mut self.gear[i]),
            None => None,
        }
    }

    /// The first innate spore cloud slot, for updating its timer.
    pub fn spore_mut(&mut self) -> (r: Option<&mut GearSlot>)
        ensures
            Self::ability_slot_mut(old(self).gear@, final(self).gear@, 2, match r {
                Some(s) => Some((*s, *final(s))),
                None => None,
            }),
    {
        match self.find_ability(2) {
            Some(i) => Some(&mut self.gear[i]),
            None => None,
        }
    }

    /// The first innate grab slot, for updating its timer.
    pub fn grab_mut(&mut self) -> (r: Option<&mut GearSlot>)
        ensures
            Self::ability_slot_mut(old(self).gear@, final(self).gear@, 3, match r {
                Some(s) => Some((*s, *final(s))),
                None => None,
            }),
    {
        match self.find_ability(3) {
            Some(i) => Some(&mut self.gear[i]),
            None => None,
        }
    }

    /// How many weapons are carried (as a `u32`).
    pub fn weapon_count(&self) -> (n: u32)
        ensures
            n == spec_weapon_count(self.gear@) as u32,
    {
        let mut n: usize = 0;
        let mut i: usize = 0;
        while i < self.gear.len()
            invariant
                i <= self.gear@.len(),
                n == spec_weapon_count(self.gear@.subrange(0, i as int)),
                n <= i,
            decreases self.gear@.len() - i,
        {
            assert(self.gear@.subrange(0, i + 1).drop_last() == self.gear@.subrange(0, i as int));
            if self.gear[i].gear.is_weapon() {
                n = n + 1;
            }
            i = i + 1;
        }
        assert(self.gear@.subrange(0, self.gear@.len() as int) == self.gear@);
        n as u32
    }

    /// How many grenades are carried, over every grenade slot's count.
    pub fn grenade_count(&self) -> (n: u32)
        requires
            prefix_sums_fit_u32(self.gear@, |t: GearSlot| slot_grenades(t)),
        ensures
            n == spec_grenade_count(self.gear@),
    {
        let mut n: u32 = 0;
        let mut i: usize = 0;
        assert(self.gear@.subrange(0, 0) == Seq::<GearSlot>::empty());
        while i < self.gear.len()
            invariant
                i <= self.gear@.len(),
                prefix_sums_fit_u32(self.gear@, |t: GearSlot| slot_grenades(t)),
                n == spec_grenade_count(self.gear@.subrange(0, i as int)),
            decreases self.gear@.len() - i,
        {
            assert(self.gear@.subrange(0, i + 1).drop_last() == self.gear@.subrange(0, i as int));
            assert(0 <= sum_of(self.gear@.subrange(0, i + 1), |t: GearSlot| slot_grenades(t)) <= u32::MAX);
            if self.gear[i].gear.is_grenade() {
                n = n + self.gear[i].count;
            }
            i = i + 1;
        }
        assert(self.gear@.subrange(0, self.gear@.len() as int) == self.gear@);
        n
    }

    /// Weapon slots: one, plus whatever the gear grants (nothing, for every kind of gear).
    pub fn max_weapons(&self) -> (n: u32)
        ensures
            n == 1,
    {
        let mut bonus: u32 = 0;
        let mut i: usize = 0;
        while i < self.gear.len()
            invariant
                i <= self.gear@.len(),
                bonus == 0,
            decreases self.gear@.len() - i,
        {
            bonus = bonus + self.gear[i].gear.weapon_capacity_bonus();
            i = i + 1;
        }
        1 + bonus
    }

    /// Grenade slots: three, plus whatever the gear grants (nothing, for every kind of gear).
    pub fn max_grenades(&self) -> (n: u32)
        ensures
            n == 3,
    {
        let mut bonus: u32 = 0;
        let mut i: usize = 0;
        while i < self.gear.len()
            invariant
                i <= self.gear@.len(),
                bonus == 0,
            decreases self.gear@.len() - i,
        {
            bonus = bonus + self.gear[i].gear.grenade_capacity_bonus();
            i = i + 1;
        }
        3 + bonus
    }

    /// The loadout respects its slot limits.
    pub fn is_valid(&self) -> (b: bool)
        requires
            prefix_sums_fit_u32(self.gear@, |t: GearSlot| slot_grenades(t)),
        ensures
            b == (spec_weapon_count(self.gear@) as u32 <= 1 && spec_grenade_count(self.gear@) <= 3),
    {
        self.weapon_count() <= self.max_weapons() && self.grenade_count() <= self.max_grenades()
    }

    /// Why `gear` cannot be added: a weapon when every weapon slot is taken, armor when an
    /// armor item is already worn, a grenade when the grenade slots are full; anything else fits.
    pub fn rejection(&self, gear: Gear) -> (r: Option<Rejection>)
        requires
            prefix_sums_fit_u32(self.gear@, |t: GearSlot| slot_grenades(t)),
        ensures
            r == spec_rejection(self.gear@, gear),
    {
        match gear {
            Gear::Weapon(_) => {
                let count = self.weapon_count();
                let max = self.max_weapons();
                if count >= max { Some(Rejection::WeaponSlotFull { count, max }) } else { None }
            },
            Gear::Armor(_) => {
                if self.armor_item().is_some() { Some(Rejection::ArmorSlotFull) } else { None }
            },
            Gear::Grenade(_) => {
                let count = self.grenade_count();
                let max = self.max_grenades();
                if count >= max { Some(Rejection::GrenadeSlotsFull { count, max }) } else { None }
            },
            _ => None,
        }
    }

    /// The message for why `gear` cannot be added, or `None` when it fits.
    pub fn rejection_reason(&self, gear: Gear) -> (r: Option<String>)
        requires
            prefix_sums_fit_u32(self.gear@, |t: GearSlot| slot_grenades(t)),
        ensures
            r is Some <==> spec_rejection(self.gear@, gear) is Some,
            r matches Some(m) ==> m@ == rejection_text(spec_rejection(self.gear@, gear)->0),
    {
        match self.rejection(gear) {
            Some(Rejection::WeaponSlotFull { count, max }) => Some(slots_full_message("weapon slot", count, max)),
            Some(Rejection::ArmorSlotFull) => Some(String::from_str("armor slot full")),
            Some(Rejection::GrenadeSlotsFull { count, max }) => Some(slots_full_message("grenade slots", count, max)),
            None => None,
        }
    }

    /// `gear` fits the loadout's slot limits.
    pub fn can_add(&self, gear: Gear) -> (b: bool)
        requires
            prefix_sums_fit_u32(self.gear@, |t: GearSlot| slot_grenades(t)),
        ensures
            b == (spec_rejection(self.gear@, gear) is None),
    {
        self.rejection(gear).is_none()
    }

    pub fn equip_weapon(&mut self, item: Item)
        ensures
            final(self).gear@ == old(self).gear@.push(GearSlot { gear: Gear::Weapon(item), count: 1, cooldown: 0, timer: 0 }),
    {
        self.gear.push(GearSlot::passive(Gear::Weapon(item)));
    }

    pub fn equip_armor(&mut self, item: Item)
        ensures
            final(self).gear@ == old(self).gear@.push(GearSlot { gear: Gear::Armor(item), count: 1, cooldown: 0, timer: 0 }),
    {
        self.gear.push(GearSlot::passive(Gear::Armor(item)));
    }

    pub fn equip_grenade(&mut self, item: Item)
        ensures
            final(self).gear@ == old(self).gear@.push(GearSlot { gear: Gear::Grenade(item), count: 1, cooldown: 0, timer: 0 }),
    {
        self.gear.push(GearSlot::passive(Gear::Grenade(item)));
    }

    pub fn equip_device(&mut self, item: Item)
        ensures
            final(self).gear@ == old(self).gear@.push(GearSlot { gear: Gear::Device(item), count: 1, cooldown: 0, timer: 0 }),
    {
        self.gear.push(GearSlot::stacked(Gear::Device(item), 1));
    }
}

impl Loadout {
    /// Takes off every weapon and hands back the first one.
    pub fn unequip_weapon(&mut self) -> (w: Option<Item>)
        ensures
            w == spec_weapon(old(self).gear@),
            final(self).gear@ == without_weapons(old(self).gear@),
    {
        let w = self.weapon();
        let mut kept: Vec<GearSlot> = Vec::new();
        let mut i: usize = 0;
        while i < self.gear.len()
            invariant
                i <= self.gear@.len(),
                kept@ == without_weapons(self.gear@.subrange(0, i as int)),
            decreases self.gear@.len() - i,
        {
            assert(self.gear@.subrange(0, i + 1).drop_last() == self.gear@.subrange(0, i as int));
            if !self.gear[i].gear.is_weapon() {
                kept.push(self.gear[i]);
            }
            i = i + 1;
        }
        assert(self.gear@.subrange(0, self.gear@.len() as int) == self.gear@);
        self.gear = kept;
        w
    }

    /// Takes off every armor item and hands back the first one; natural armor stays.
    pub fn unequip_armor(&mut self) -> (a: Option<Item>)
        ensures
            a == spec_armor_item(old(self).gear@),
            final(self).gear@ == without_armor(old(self).gear@),
    {
        let a = self.armor_item();
        let mut kept: Vec<GearSlot> = Vec::new();
        let mut i: usize = 0;
        while i < self.gear.len()
            invariant
                i <= self.gear@.len(),
                kept@ == without_armor(self.gear@.subrange(0, i as int)),
            decreases self.gear@.len() - i,
        {
            assert(self.gear@.subrange(0, i + 1).drop_last() == self.gear@.subrange(0, i as int));
            let is_armor_item = match self.gear[i].gear {
                Gear::Armor(_) => true,
                _ => false,
            };
            if !is_armor_item {
                kept.push(self.gear[i]);
            }
            i = i + 1;
        }
        assert(self.gear@.subrange(0, self.gear@.len() as int) == self.gear@);
        self.gear = kept;
        a
    }

    /// Takes off the `slot_idx`-th grenade slot and hands back its grenade.
    pub fn unequip_grenade_at(&mut self, slot_idx: usize) -> (r: Option<Item>)
        ensures
            r == if slot_idx < spec_grenade_slots(old(self).gear@).len() {
                Some(spec_grenade_slots(old(self).gear@)[slot_idx as int].1)
            } else {
                None
            },
            final(self).gear@ == if slot_idx < spec_grenade_slots(old(self).gear@).len() {
                old(self).gear@.remove(spec_grenade_slots(old(self).gear@)[slot_idx as int].0 as int)
            } else {
                old(self).gear@
            },
    {
        let slots = self.grenade_slots();
        if slot_idx < slots.len() {
            let (real_idx, item) = slots[slot_idx];
            // The length fits a `usize`, which bounds the index below.
            let _n = self.gear.len();
            proof {
                lemma_indexed_items(self.gear@, |g: Gear| grenade_of(g), slot_idx as int);
            }
            self.gear.remove(real_idx);
            Some(item)
        } else {
            None
        }
    }

    /// Takes off the `slot_idx`-th device slot and hands back its device.
    pub fn unequip_device_at(&mut self, slot_idx: usize) -> (r: Option<Item>)
        ensures
            r == if slot_idx < spec_device_slots(old(self).gear@).len() {
                Some(spec_device_slots(old(self).gear@)[slot_idx as int].1)
            } else {
                None
            },
            final(self).gear@ == if slot_idx < spec_device_slots(old(self).gear@).len() {
                old(self).gear@.remove(spec_device_slots(old(self).gear@)[slot_idx as int].0 as int)
            } else {
                old(self).gear@
            },
    {
        let slots = self.device_slots();
        if slot_idx < slots.len() {
            let (real_idx, item) = slots[slot_idx];
            // The length fits a `usize`, which bounds the index below.
            let _n = self.gear.len();
            proof {
                lemma_indexed_items(self.gear@, |g: Gear| device_of(g), slot_idx as int);
            }
            self.gear.remove(real_idx);
            Some(item)
        } else {
            None
        }
    }

    /// Position of the first slot holding exactly `gear`.
    fn position_of(&self, gear: Gear) -> (r: Option<usize>)
        ensures
            match r {
                Some(i) => i < self.gear@.len() && self.gear@[i as int].gear == gear
                    && forall|j: int| 0 <= j < i ==> (#[trigger] self.gear@[j]).gear != gear,
                None => forall|j: int| 0 <= j < self.gear@.len() ==> (#[trigger] self.gear@[j]).gear != gear,
            },
    {
        let mut i: usize = 0;
        while i < self.gear.len()
            invariant
                i <= self.gear@.len(),
                forall|j: int| 0 <= j < i ==> (#[trigger] self.gear@[j]).gear != gear,
            decreases self.gear@.len() - i,
        {
            if self.gear[i].gear == gear {
                return Some(i);
            }
            i = i + 1;
        }
        None
    }

    /// Removes the first slot holding the grenade `item`, if any.
    pub fn remove_grenade_by_item(&mut self, item: Item)
        ensures
            first_slot_removed(old(self).gear@, final(self).gear@, Gear::Grenade(item)),
    {
        if let Some(idx) = self.position_of(Gear::Grenade(item)) {
            self.gear.remove(idx);
        }
    }

    /// Removes the first slot holding the device `item`, if any.
    pub fn remove_device_by_item(&mut self, item: Item)
        ensures
            first_slot_removed(old(self).gear@, final(self).gear@, Gear::Device(item)),
    {
        if let Some(idx) = self.position_of(Gear::Device(item)) {
            self.gear.remove(idx);
        }
    }

    /// Keeps the slots that `keep` accepts, in order.
    pub fn retain_gear<F: Fn(&GearSlot) -> bool>(&mut self, keep: F)
        requires
            forall|s: GearSlot| #[trigger] keep.requires((&s,)),
        ensures
            exists|mask: Seq<bool>| {
                &&& mask.len() == old(self).gear@.len()
                &&& (forall|i: int| 0 <= i < mask.len() ==> #[trigger] keep.ensures((&old(self).gear@[i],), mask[i]))
                &&& final(self).gear@ == keep_by_mask(old(self).gear@, mask)
            },
    {
        let ghost mut mask: Seq<bool> = Seq::empty();
        let mut kept: Vec<GearSlot> = Vec::new();
        let mut i: usize = 0;
        while i < self.gear.len()
            invariant
                i <= self.gear@.len(),
                forall|s: GearSlot| #[trigger] keep.requires((&s,)),
                mask.len() == i,
                forall|j: int| 0 <= j < i ==> #[trigger] keep.ensures((&self.gear@[j],), mask[j]),
                kept@ == keep_by_mask(self.gear@.subrange(0, i as int), mask),
            decreases self.gear@.len() - i,
        {
            let slot = self.gear[i];
            let b = keep(&slot);
            proof {
                assert(self.gear@.subrange(0, i + 1).drop_last() == self.gear@.subrange(0, i as int));
                lemma_keep_by_mask_ext(self.gear@.subrange(0, i as int), mask, mask.push(b));
                mask = mask.push(b);
            }
            if b {
                kept.push(slot);
            }
            i = i + 1;
        }
        assert(self.gear@.subrange(0, self.gear@.len() as int) == self.gear@);
        self.gear = kept;
    }

    /// What the loadout leaves as loot: every item it holds, with its count.
    pub fn lootable_items(&self) -> (v: Vec<(Item, u32)>)
        ensures
            v@ == spec_lootable(self.gear@),
    {
        let mut v: Vec<(Item, u32)> = Vec::new();
        let mut i: usize = 0;
        while i < self.gear.len()
            invariant
                i <= self.gear@.len(),
                v@ == spec_lootable(self.gear@.subrange(0, i as int)),
            decreases self.gear@.len() - i,
        {
            assert(self.gear@.subrange(0, i + 1).drop_last() == self.gear@.subrange(0, i as int));
            let s = self.gear[i];
            match s.gear {
                Gear::Weapon(item) | Gear::Armor(item) | Gear::Grenade(item) | Gear::Device(item) | Gear::Loot(item) => {
                    v.push((item, s.count));
                },
                _ => {},
            }
            i = i + 1;
        }
        assert(self.gear@.subrange(0, self.gear@.len() as int) == self.gear@);
        v
    }
}

/// The slots whose mask entry is true, in order.
pub open spec fn keep_by_mask(s: Seq<GearSlot>, mask: Seq<bool>) -> Seq<GearSlot>
    decreases s.len(),
{
    if s.len() == 0 {
        Seq::empty()
    } else if mask[s.len() - 1] {
        keep_by_mask(s.drop_last(), mask).push(s.last())
    } else {
        keep_by_mask(s.drop_last(), mask)
    }
}

/// `after` is `before` without its first slot holding `gear`, or `before` itself when none does.
pub open spec fn first_slot_removed(before: Seq<GearSlot>, after: Seq<GearSlot>, gear: Gear) -> bool {
    match choose_first(before, gear) {
        Some(i) => after == before.remove(i),
        None => after == before,
    }
}

/// Position of the first slot holding `gear`.
pub open spec fn choose_first(s: Seq<GearSlot>, gear: Gear) -> Option<int> {
    if exists|i: int| 0 <= i < s.len() && s[i].gear == gear {
        Some(choose|i: int| 0 <= i < s.len() && s[i].gear == gear && forall|j: int| 0 <= j < i ==> (#[trigger] s[j]).gear != gear)
    } else {
        None
    }
}

/// Every entry of `indexed_items` names a real slot holding that item.
pub proof fn lemma_indexed_items(s: Seq<GearSlot>, f: spec_fn(Gear) -> Option<Item>, k: int)
    requires
        0 <= k < indexed_items(s, f).len(),
        s.len() <= usize::MAX,
    ensures
        indexed_items(s, f)[k].0 < s.len(),
        f(s[indexed_items(s, f)[k].0 as int].gear) == Some(indexed_items(s, f)[k].1),
    decreases s.len(),
{
    let rest = indexed_items(s.drop_last(), f);
    if k < rest.len() {
        lemma_indexed_items(s.drop_last(), f, k);
        assert(s.drop_last()[rest[k].0 as int] == s[rest[k].0 as int]);
    }
}

/// `keep_by_mask` reads only the mask entries of the slots it is given.
pub proof fn lemma_keep_by_mask_ext(s: Seq<GearSlot>, m1: Seq<bool>, m2: Seq<bool>)
    requires
        forall|j: int| 0 <= j < s.len() ==> m1[j] == m2[j],
    ensures
        keep_by_mask(s, m1) == keep_by_mask(s, m2),
    decreases s.len(),
{
    if s.len() > 0 {
        lemma_keep_by_mask_ext(s.drop_last(), m1, m2);
    }
}

/// Extending a prefix by one slot whose item `f` finds, when the prefix held none, makes that
/// the first item of the longer prefix, and so of the whole sequence.
pub proof fn lemma_first_item_extend(s: Seq<GearSlot>, f: spec_fn(Gear) -> Option<Item>, k: int)
    requires
        0 < k <= s.len(),
        first_item(s.subrange(0, k - 1), f) is None,
        f(s[k - 1].gear) is Some,
    ensures
        first_item(s, f) == f(s[k - 1].gear),
    decreases s.len() - k,
{
    assert(s.subrange(0, k).drop_last() == s.subrange(0, k - 1));
    assert(first_item(s.subrange(0, k), f) == f(s[k - 1].gear));
    if k < s.len() {
        lemma_first_item_prefix(s, f, k, s.len() as int);
        assert(s.subrange(0, s.len() as int) == s);
    } else {
        assert(s.subrange(0, k) == s);
    }
}

/// Once a prefix holds an item, every longer prefix starts with the same item.
pub proof fn lemma_first_item_prefix(s: Seq<GearSlot>, f: spec_fn(Gear) -> Option<Item>, k: int, m: int)
    requires
        0 <= k <= m <= s.len(),
        first_item(s.subrange(0, k), f) is Some,
    ensures
        first_item(s.subrange(0, m), f) == first_item(s.subrange(0, k), f),
    decreases m - k,
{
    if m > k {
        lemma_first_item_prefix(s, f, k, m - 1);
        assert(s.subrange(0, m).drop_last() == s.subrange(0, m - 1));
    }
    if m == s.len() {
        assert(s.subrange(0, m) == s);
    }
}

} // verus!

verus! {

/// Slots without a weapon lose nothing when the weapons are taken off.
proof fn lemma_no_weapon_kept(s: Seq<GearSlot>)
    requires
        spec_weapon(s) is None,
    ensures
        without_weapons(s) == s,
    decreases s.len(),
{
    if s.len() > 0 {
        lemma_no_weapon_kept(s.drop_last());
        assert(s.drop_last().push(s.last()) == s);
    }
}

/// Slots without an armor item lose nothing when the armor is taken off.
proof fn lemma_no_armor_kept(s: Seq<GearSlot>)
    requires
        spec_armor_item(s) is None,
    ensures
        without_armor(s) == s,
    decreases s.len(),
{
    if s.len() > 0 {
        lemma_no_armor_kept(s.drop_last());
        assert(s.drop_last().push(s.last()) == s);
    }
}

/// Equipping a weapon on an unarmed loadout and then unequipping hands the same weapon back
/// and leaves the loadout as it was.
pub proof fn law_equip_then_unequip_weapon(s: Seq<GearSlot>, item: Item)
    requires
        spec_weapon(s) is None,
    ensures
        spec_weapon(s.push(GearSlot { gear: Gear::Weapon(item), count: 1, cooldown: 0, timer: 0 })) == Some(item),
        without_weapons(s.push(GearSlot { gear: Gear::Weapon(item), count: 1, cooldown: 0, timer: 0 })) == s,
{
    let t = s.push(GearSlot { gear: Gear::Weapon(item), count: 1, cooldown: 0, timer: 0 });
    assert(t.drop_last() == s);
    lemma_no_weapon_kept(s);
}

/// Equipping armor when none is worn and then unequipping hands the same armor back and leaves
/// the loadout as it was.
pub proof fn law_equip_then_unequip_armor(s: Seq<GearSlot>, item: Item)
    requires
        spec_armor_item(s) is None,
    ensures
        spec_armor_item(s.push(GearSlot { gear: Gear::Armor(item), count: 1, cooldown: 0, timer: 0 })) == Some(item),
        without_armor(s.push(GearSlot { gear: Gear::Armor(item), count: 1, cooldown: 0, timer: 0 })) == s,
{
    let t = s.push(GearSlot { gear: Gear::Armor(item), count: 1, cooldown: 0, timer: 0 });
    assert(t.drop_last() == s);
    lemma_no_armor_kept(s);
}

/// After unequipping, no weapon is left.
pub proof fn law_unequip_weapon_leaves_none(s: Seq<GearSlot>)
    ensures
        spec_weapon(without_weapons(s)) is None,
        spec_weapon_count(without_weapons(s)) == 0,
    decreases s.len(),
{
    if s.len() > 0 {
        law_unequip_weapon_leaves_none(s.drop_last());
        let r = without_weapons(s.drop_last());
        if !s.last().gear.spec_is_weapon() {
            assert(without_weapons(s) == r.push(s.last()));
            assert(r.push(s.last()).drop_last() == r);
        }
    }
}

/// A grenade just equipped is the last grenade slot, and unequipping that slot hands the
/// grenade back and restores the loadout.
pub proof fn law_equip_then_unequip_grenade(s: Seq<GearSlot>, item: Item)
    requires
        s.len() < usize::MAX,
    ensures
        ({
            let t = s.push(GearSlot { gear: Gear::Grenade(item), count: 1, cooldown: 0, timer: 0 });
            let n = spec_grenade_slots(s).len();
            &&& spec_grenade_slots(t).len() == n + 1
            &&& spec_grenade_slots(t)[n as int] == (s.len() as usize, item)
            &&& t.remove(s.len() as int) == s
        }),
{
    let t = s.push(GearSlot { gear: Gear::Grenade(item), count: 1, cooldown: 0, timer: 0 });
    assert(t.drop_last() == s);
    assert(t.remove(s.len() as int) == s);
}

} // verus!
