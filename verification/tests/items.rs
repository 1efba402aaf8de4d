use space_qud::item::{EquipSlot, Item};

#[test]
fn equipment_slots_and_bonuses() {
    assert_eq!(Item::IronSword.equip_slot(), Some(EquipSlot::Weapon));
    assert_eq!(Item::ChainMail.equip_slot(), Some(EquipSlot::Armor));
    assert_eq!(Item::GoldCoin.equip_slot(), None);
    assert_eq!(Item::IronSword.attack_bonus(), 3);
    assert_eq!(Item::PipeRevolver.attack_bonus(), 5);
    assert_eq!(Item::ChainMail.defense_bonus(), 2);
    assert_eq!(Item::LeatherVest.defense_bonus(), 1);
    assert_eq!(Item::Rock.defense_bonus(), 0);
}

#[test]
fn item_kinds() {
    assert!(Item::IronSword.is_weapon());
    assert!(Item::ChainMail.is_armor());
    assert!(Item::FragGrenade.is_grenade());
    assert!(Item::StealthDevice.is_device());
    assert!(!Item::Rock.is_weapon());
    assert!(Item::FrostScroll.is_scroll());
    assert!(Item::LaserRifle.is_laser());
    assert!(Item::PlasmaRifle.is_plasma());
    assert!(Item::ScatterGun.is_scatter());
    assert!(Item::PulseCannon.is_pulse());
}

#[test]
fn names_and_glyphs() {
    assert_eq!(Item::GoldCoin.name(), "Gold Coin");
    assert_eq!(Item::GoldCoin.glyph(), "$");
    assert_eq!(Item::HealthPotion.name(), "Health Potion");
}

#[test]
fn salvage() {
    assert!(Item::HealthPotion.can_salvage());
    assert_eq!(Item::HealthPotion.scrap_yield(), vec![(Item::Glass, 1), (Item::OrganicMaterial, 2), (Item::Crystal, 1)]);
    assert!(!Item::GoldCoin.can_salvage());
    assert!(Item::GoldCoin.scrap_yield().is_empty());
}

#[test]
fn ids_are_distinct() {
    let all = [Item::GoldCoin, Item::Rock, Item::IronSword, Item::ChainMail, Item::ResonanceLens];
    for (i, a) in all.iter().enumerate() {
        for b in &all[i + 1..] {
            assert_ne!(a.id(), b.id());
        }
    }
}
