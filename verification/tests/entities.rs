use space_qud::entities::{Gear, GearSlot, Loadout, Rejection};
use space_qud::item::Item;

fn slot(g: Gear) -> GearSlot {
    GearSlot::passive(g)
}

#[test]
fn gear_kinds() {
    assert!(Gear::Weapon(Item::IronSword).is_weapon());
    assert!(Gear::NaturalArmor { dr: 2 }.is_armor());
    assert!(Gear::Armor(Item::ChainMail).is_armor());
    assert!(Gear::Grenade(Item::FragGrenade).is_grenade());
    assert!(Gear::InnateGrab.is_ability());
    assert!(!Gear::Loot(Item::Rock).is_ability());
    assert_eq!(Gear::InnateGun { damage: 3 }.weapon_capacity_bonus(), 0);
}

#[test]
fn slot_constructors() {
    let s = GearSlot::ability(Gear::InnateGun { damage: 2 }, 6);
    assert_eq!((s.count, s.cooldown, s.timer), (1, 6, 0));
    let s = GearSlot::stacked(Gear::Grenade(Item::FragGrenade), 3);
    assert_eq!((s.count, s.cooldown, s.timer), (3, 0, 0));
}

#[test]
fn weapon_and_armor_lookups() {
    let l = Loadout::new(vec![
        slot(Gear::Loot(Item::Rock)),
        slot(Gear::Weapon(Item::PipeRevolver)),
        slot(Gear::Weapon(Item::IronSword)),
        slot(Gear::Armor(Item::ChainMail)),
        slot(Gear::NaturalArmor { dr: 1 }),
    ]);
    assert_eq!(l.weapon(), Some(Item::PipeRevolver));
    assert_eq!(l.weapon_attack_bonus(), 5);
    assert_eq!(l.armor_item(), Some(Item::ChainMail));
    assert_eq!(l.armor_dr(), 3);
    assert_eq!(l.weapon_count(), 2);
    assert!(!l.is_valid());
}

#[test]
fn unarmed_loadout_has_no_bonus() {
    let l = Loadout::default();
    assert_eq!(l.weapon(), None);
    assert_eq!(l.weapon_attack_bonus(), 0);
    assert_eq!(l.armor_dr(), 0);
    assert_eq!(l.max_weapons(), 1);
    assert_eq!(l.max_grenades(), 3);
    assert!(l.is_valid());
}

#[test]
fn equip_then_unequip_weapon_round_trips() {
    let mut l = Loadout::new(vec![slot(Gear::Armor(Item::LeatherVest))]);
    l.equip_weapon(Item::SteelAxe);
    assert_eq!(l.weapon(), Some(Item::SteelAxe));
    assert_eq!(l.unequip_weapon(), Some(Item::SteelAxe));
    assert_eq!(l.weapon(), None);
    assert_eq!(l.gear.len(), 1);
    assert_eq!(l.armor_item(), Some(Item::LeatherVest));
}

#[test]
fn unequip_armor_keeps_natural_armor() {
    let mut l = Loadout::new(vec![slot(Gear::NaturalArmor { dr: 2 }), slot(Gear::Armor(Item::SteelBoots))]);
    assert_eq!(l.unequip_armor(), Some(Item::SteelBoots));
    assert_eq!(l.armor_item(), None);
    assert_eq!(l.armor_dr(), 2);
}

#[test]
fn slot_limits_and_rejections() {
    let mut l = Loadout::default();
    assert!(l.can_add(Gear::Weapon(Item::IronSword)));
    l.equip_weapon(Item::IronSword);
    assert!(!l.can_add(Gear::Weapon(Item::SteelAxe)));
    assert_eq!(l.rejection(Gear::Weapon(Item::SteelAxe)), Some(Rejection::WeaponSlotFull { count: 1, max: 1 }));
    assert_eq!(l.rejection_reason(Gear::Weapon(Item::SteelAxe)), Some("weapon slot full (1/1)".to_string()));
    l.equip_armor(Item::ChainMail);
    assert_eq!(l.rejection_reason(Gear::Armor(Item::LeatherVest)), Some("armor slot full".to_string()));
    for _ in 0..3 {
        l.equip_grenade(Item::FragGrenade);
    }
    assert_eq!(l.grenade_count(), 3);
    assert_eq!(l.rejection_reason(Gear::Grenade(Item::StunGrenade)), Some("grenade slots full (3/3)".to_string()));
    assert_eq!(l.rejection_reason(Gear::Device(Item::PhaseDevice)), None);
    assert!(l.is_valid());
}

#[test]
fn grenades_and_devices_by_slot() {
    let mut l = Loadout::default();
    l.equip_grenade(Item::FragGrenade);
    l.equip_device(Item::StealthDevice);
    l.equip_grenade(Item::StunGrenade);
    assert_eq!(l.grenade_slots(), vec![(0, Item::FragGrenade), (2, Item::StunGrenade)]);
    assert_eq!(l.device_slots(), vec![(1, Item::StealthDevice)]);
    assert_eq!(l.grenade_at(1), Some(Item::StunGrenade));
    assert_eq!(l.grenade_at(2), None);
    assert_eq!(l.unequip_grenade_at(0), Some(Item::FragGrenade));
    assert_eq!(l.grenade_slots(), vec![(1, Item::StunGrenade)]);
    assert_eq!(l.unequip_device_at(0), Some(Item::StealthDevice));
    assert_eq!(l.unequip_device_at(0), None);
    assert_eq!(l.gear.len(), 1);
}

#[test]
fn remove_by_item_takes_the_first_match_only() {
    let mut l = Loadout::default();
    l.equip_grenade(Item::FragGrenade);
    l.equip_grenade(Item::FragGrenade);
    l.equip_device(Item::PhaseDevice);
    l.remove_grenade_by_item(Item::FragGrenade);
    assert_eq!(l.grenade_slots(), vec![(0, Item::FragGrenade)]);
    l.remove_device_by_item(Item::StealthDevice);
    assert_eq!(l.gear.len(), 2);
    l.remove_device_by_item(Item::PhaseDevice);
    assert_eq!(l.gear.len(), 1);
}

#[test]
fn innate_ability_slots_update_in_place() {
    let mut l = Loadout::new(vec![
        slot(Gear::Loot(Item::Rock)),
        GearSlot::ability(Gear::InnateGun { damage: 4 }, 5),
        GearSlot::ability(Gear::InnateGrab, 9),
    ]);
    if let Some(s) = l.gun_mut() {
        s.timer = 5;
    }
    assert_eq!(l.gear[1].timer, 5);
    assert!(l.spore_mut().is_none());
    assert_eq!(l.grab_mut().map(|s| s.cooldown), Some(9));
    assert!(l.grenade_throw_mut().is_none());
}

#[test]
fn retain_and_loot() {
    let mut l = Loadout::new(vec![
        GearSlot::stacked(Gear::Loot(Item::GoldCoin), 12),
        GearSlot::ability(Gear::InnateSporeEmit, 3),
        slot(Gear::Weapon(Item::CopperKnife)),
    ]);
    assert_eq!(l.lootable_items(), vec![(Item::GoldCoin, 12), (Item::CopperKnife, 1)]);
    l.retain_gear(|s: &GearSlot| !s.gear.is_ability());
    assert_eq!(l.gear.len(), 2);
    assert_eq!(l.lootable_items(), vec![(Item::GoldCoin, 12), (Item::CopperKnife, 1)]);
    let copy = Loadout::from_gear(&l.gear);
    assert_eq!(copy.gear.len(), 2);
}
