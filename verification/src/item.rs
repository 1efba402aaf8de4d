use vstd::prelude::*;

verus! {

/// The loadout slot an equippable item occupies.
#[derive(Clone, Copy, PartialEq, Eq, Structural, Debug, Hash)]
pub enum EquipSlot {
    Weapon,
    Armor,
    Grenade,
    Device,
}

/// Everything that can lie on the ground, sit in an inventory or be equipped.
#[derive(Clone, Copy, PartialEq, Eq, Structural, Debug, Hash)]
pub enum Item {
    GoldCoin,
    HealthPotion,
    Torch,
    Rock,
    Mushroom,
    Wood,
    Steel,
    Copper,
    Screws,
    Crystal,
    SyntheticMaterial,
    Glass,
    OrganicMaterial,
    IronSword,
    SteelAxe,
    CopperKnife,
    CombatSpear,
    PipeRevolver,
    LeatherVest,
    ChainMail,
    SteelBoots,
    SynthHelmet,
    StimPack,
    CannedGoods,
    FilterWater,
    FragGrenade,
    StunGrenade,
    LaserRifle,
    PlasmaRifle,
    ScatterGun,
    PulseCannon,
    StealthDevice,
    PhaseDevice,
    FrostScroll,
    LightningScroll,
    VoidScroll,
    ResonanceLens,
}

impl Item {
    pub open spec fn spec_equip_slot(self) -> Option<EquipSlot> {
        match self {
            Item::GoldCoin => None,
            Item::HealthPotion => None,
            Item::Torch => None,
            Item::Rock => None,
            Item::Mushroom => None,
            Item::Wood => None,
            Item::Steel => None,
            Item::Copper => None,
            Item::Screws => None,
            Item::Crystal => None,
            Item::SyntheticMaterial => None,
            Item::Glass => None,
            Item::OrganicMaterial => None,
            Item::IronSword => Some(EquipSlot::Weapon),
            Item::SteelAxe => Some(EquipSlot::Weapon),
            Item::CopperKnife => Some(EquipSlot::Weapon),
            Item::CombatSpear => Some(EquipSlot::Weapon),
            Item::PipeRevolver => Some(EquipSlot::Weapon),
            Item::LeatherVest => Some(EquipSlot::Armor),
            Item::ChainMail => Some(EquipSlot::Armor),
            Item::SteelBoots => Some(EquipSlot::Armor),
            Item::SynthHelmet => Some(EquipSlot::Armor),
            Item::StimPack => None,
            Item::CannedGoods => None,
            Item::FilterWater => None,
            Item::FragGrenade => Some(EquipSlot::Grenade),
            Item::StunGrenade => Some(EquipSlot::Grenade),
            Item::LaserRifle => Some(EquipSlot::Weapon),
            Item::PlasmaRifle => Some(EquipSlot::Weapon),
            Item::ScatterGun => Some(EquipSlot::Weapon),
            Item::PulseCannon => Some(EquipSlot::Weapon),
            Item::StealthDevice => Some(EquipSlot::Device),
            Item::PhaseDevice => Some(EquipSlot::Device),
            Item::FrostScroll => Some(EquipSlot::Grenade),
            Item::LightningScroll => Some(EquipSlot::Grenade),
            Item::VoidScroll => Some(EquipSlot::Grenade),
            Item::ResonanceLens => None,
        }
    }

    /// The loadout slot the item occupies when equipped.
    #[verifier::when_used_as_spec(spec_equip_slot)]
    pub fn equip_slot(self) -> (v: Option<EquipSlot>)
        ensures
            v == self.spec_equip_slot(),
    {
        match self {
            Item::GoldCoin => None,
            Item::HealthPotion => None,
            Item::Torch => None,
            Item::Rock => None,
            Item::Mushroom => None,
            Item::Wood => None,
            Item::Steel => None,
            Item::Copper => None,
            Item::Screws => None,
            Item::Crystal => None,
            Item::SyntheticMaterial => None,
            Item::Glass => None,
            Item::OrganicMaterial => None,
            Item::IronSword => Some(EquipSlot::Weapon),
            Item::SteelAxe => Some(EquipSlot::Weapon),
            Item::CopperKnife => Some(EquipSlot::Weapon),
            Item::CombatSpear => Some(EquipSlot::Weapon),
            Item::PipeRevolver => Some(EquipSlot::Weapon),
            Item::LeatherVest => Some(EquipSlot::Armor),
            Item::ChainMail => Some(EquipSlot::Armor),
            Item::SteelBoots => Some(EquipSlot::Armor),
            Item::SynthHelmet => Some(EquipSlot::Armor),
            Item::StimPack => None,
            Item::CannedGoods => None,
            Item::FilterWater => None,
            Item::FragGrenade => Some(EquipSlot::Grenade),
            Item::StunGrenade => Some(EquipSlot::Grenade),
            Item::LaserRifle => Some(EquipSlot::Weapon),
            Item::PlasmaRifle => Some(EquipSlot::Weapon),
            Item::ScatterGun => Some(EquipSlot::Weapon),
            Item::PulseCannon => Some(EquipSlot::Weapon),
            Item::StealthDevice => Some(EquipSlot::Device),
            Item::PhaseDevice => Some(EquipSlot::Device),
            Item::FrostScroll => Some(EquipSlot::Grenade),
            Item::LightningScroll => Some(EquipSlot::Grenade),
            Item::VoidScroll => Some(EquipSlot::Grenade),
            Item::ResonanceLens => None,
        }
    }

    pub open spec fn spec_attack_bonus(self) -> i32 {
        match self {
            Item::GoldCoin => 0,
            Item::HealthPotion => 0,
            Item::Torch => 0,
            Item::Rock => 0,
            Item::Mushroom => 0,
            Item::Wood => 0,
            Item::Steel => 0,
            Item::Copper => 0,
            Item::Screws => 0,
            Item::Crystal => 0,
            Item::SyntheticMaterial => 0,
            Item::Glass => 0,
            Item::OrganicMaterial => 0,
            Item::IronSword => 3,
            Item::SteelAxe => 4,
            Item::CopperKnife => 2,
            Item::CombatSpear => 3,
            Item::PipeRevolver => 5,
            Item::LeatherVest => 0,
            Item::ChainMail => 0,
            Item::SteelBoots => 0,
            Item::SynthHelmet => 0,
            Item::StimPack => 0,
            Item::CannedGoods => 0,
            Item::FilterWater => 0,
            Item::FragGrenade => 0,
            Item::StunGrenade => 0,
            Item::LaserRifle => 8,
            Item::PlasmaRifle => 6,
            Item::ScatterGun => 3,
            Item::PulseCannon => 12,
            Item::StealthDevice => 0,
            Item::PhaseDevice => 0,
            Item::FrostScroll => 0,
            Item::LightningScroll => 0,
            Item::VoidScroll => 0,
            Item::ResonanceLens => 0,
        }
    }

    /// Damage added to attacks by an equipped weapon.
    #[verifier::when_used_as_spec(spec_attack_bonus)]
    pub fn attack_bonus(self) -> (v: i32)
        ensures
            v == self.spec_attack_bonus(),
    {
        match self {
            Item::GoldCoin => 0,
            Item::HealthPotion => 0,
            Item::Torch => 0,
            Item::Rock => 0,
            Item::Mushroom => 0,
            Item::Wood => 0,
            Item::Steel => 0,
            Item::Copper => 0,
            Item::Screws => 0,
            Item::Crystal => 0,
            Item::SyntheticMaterial => 0,
            Item::Glass => 0,
            Item::OrganicMaterial => 0,
            Item::IronSword => 3,
            Item::SteelAxe => 4,
            Item::CopperKnife => 2,
            Item::CombatSpear => 3,
            Item::PipeRevolver => 5,
            Item::LeatherVest => 0,
            Item::ChainMail => 0,
            Item::SteelBoots => 0,
            Item::SynthHelmet => 0,
            Item::StimPack => 0,
            Item::CannedGoods => 0,
            Item::FilterWater => 0,
            Item::FragGrenade => 0,
            Item::StunGrenade => 0,
            Item::LaserRifle => 8,
            Item::PlasmaRifle => 6,
            Item::ScatterGun => 3,
            Item::PulseCannon => 12,
            Item::StealthDevice => 0,
            Item::PhaseDevice => 0,
            Item::FrostScroll => 0,
            Item::LightningScroll => 0,
            Item::VoidScroll => 0,
            Item::ResonanceLens => 0,
        }
    }

    pub open spec fn spec_defense_bonus(self) -> i32 {
        match self {
            Item::GoldCoin => 0,
            Item::HealthPotion => 0,
            Item::Torch => 0,
            Item::Rock => 0,
            Item::Mushroom => 0,
            Item::Wood => 0,
            Item::Steel => 0,
            Item::Copper => 0,
            Item::Screws => 0,
            Item::Crystal => 0,
            Item::SyntheticMaterial => 0,
            Item::Glass => 0,
            Item::OrganicMaterial => 0,
            Item::IronSword => 0,
            Item::SteelAxe => 0,
            Item::CopperKnife => 0,
            Item::CombatSpear => 0,
            Item::PipeRevolver => 0,
            Item::LeatherVest => 1,
            Item::ChainMail => 2,
            Item::SteelBoots => 1,
            Item::SynthHelmet => 1,
            Item::StimPack => 0,
            Item::CannedGoods => 0,
            Item::FilterWater => 0,
            Item::FragGrenade => 0,
            Item::StunGrenade => 0,
            Item::LaserRifle => 0,
            Item::PlasmaRifle => 0,
            Item::ScatterGun => 0,
            Item::PulseCannon => 0,
            Item::StealthDevice => 0,
            Item::PhaseDevice => 0,
            Item::FrostScroll => 0,
            Item::LightningScroll => 0,
            Item::VoidScroll => 0,
            Item::ResonanceLens => 0,
        }
    }

    /// Damage reduction of an equipped armor piece.
    #[verifier::when_used_as_spec(spec_defense_bonus)]
    pub fn defense_bonus(self) -> (v: i32)
        ensures
            v == self.spec_defense_bonus(),
    {
        match self {
            Item::GoldCoin => 0,
            Item::HealthPotion => 0,
            Item::Torch => 0,
            Item::Rock => 0,
            Item::Mushroom => 0,
            Item::Wood => 0,
            Item::Steel => 0,
            Item::Copper => 0,
            Item::Screws => 0,
            Item::Crystal => 0,
            Item::SyntheticMaterial => 0,
            Item::Glass => 0,
            Item::OrganicMaterial => 0,
            Item::IronSword => 0,
            Item::SteelAxe => 0,
            Item::CopperKnife => 0,
            Item::CombatSpear => 0,
            Item::PipeRevolver => 0,
            Item::LeatherVest => 1,
            Item::ChainMail => 2,
            Item::SteelBoots => 1,
            Item::SynthHelmet => 1,
            Item::StimPack => 0,
            Item::CannedGoods => 0,
            Item::FilterWater => 0,
            Item::FragGrenade => 0,
            Item::StunGrenade => 0,
            Item::LaserRifle => 0,
            Item::PlasmaRifle => 0,
            Item::ScatterGun => 0,
            Item::PulseCannon => 0,
            Item::StealthDevice => 0,
            Item::PhaseDevice => 0,
            Item::FrostScroll => 0,
            Item::LightningScroll => 0,
            Item::VoidScroll => 0,
            Item::ResonanceLens => 0,
        }
    }

    pub open spec fn spec_is_ranged(self) -> bool {
        match self {
            Item::GoldCoin => false,
            Item::HealthPotion => false,
            Item::Torch => false,
            Item::Rock => false,
            Item::Mushroom => false,
            Item::Wood => false,
            Item::Steel => false,
            Item::Copper => false,
            Item::Screws => false,
            Item::Crystal => false,
            Item::SyntheticMaterial => false,
            Item::Glass => false,
            Item::OrganicMaterial => false,
            Item::IronSword => false,
            Item::SteelAxe => false,
            Item::CopperKnife => false,
            Item::CombatSpear => false,
            Item::PipeRevolver => true,
            Item::LeatherVest => false,
            Item::ChainMail => false,
            Item::SteelBoots => false,
            Item::SynthHelmet => false,
            Item::StimPack => false,
            Item::CannedGoods => false,
            Item::FilterWater => false,
            Item::FragGrenade => false,
            Item::StunGrenade => false,
            Item::LaserRifle => true,
            Item::PlasmaRifle => true,
            Item::ScatterGun => true,
            Item::PulseCannon => true,
            Item::StealthDevice => false,
            Item::PhaseDevice => false,
            Item::FrostScroll => false,
            Item::LightningScroll => false,
            Item::VoidScroll => false,
            Item::ResonanceLens => false,
        }
    }

    /// Whether the item is a firearm.
    #[verifier::when_used_as_spec(spec_is_ranged)]
    pub fn is_ranged(self) -> (v: bool)
        ensures
            v == self.spec_is_ranged(),
    {
        match self {
            Item::GoldCoin => false,
            Item::HealthPotion => false,
            Item::Torch => false,
            Item::Rock => false,
            Item::Mushroom => false,
            Item::Wood => false,
            Item::Steel => false,
            Item::Copper => false,
            Item::Screws => false,
            Item::Crystal => false,
            Item::SyntheticMaterial => false,
            Item::Glass => false,
            Item::OrganicMaterial => false,
            Item::IronSword => false,
            Item::SteelAxe => false,
            Item::CopperKnife => false,
            Item::CombatSpear => false,
            Item::PipeRevolver => true,
            Item::LeatherVest => false,
            Item::ChainMail => false,
            Item::SteelBoots => false,
            Item::SynthHelmet => false,
            Item::StimPack => false,
            Item::CannedGoods => false,
            Item::FilterWater => false,
            Item::FragGrenade => false,
            Item::StunGrenade => false,
            Item::LaserRifle => true,
            Item::PlasmaRifle => true,
            Item::ScatterGun => true,
            Item::PulseCannon => true,
            Item::StealthDevice => false,
            Item::PhaseDevice => false,
            Item::FrostScroll => false,
            Item::LightningScroll => false,
            Item::VoidScroll => false,
            Item::ResonanceLens => false,
        }
    }

    /// Materials recovered by salvaging the item.
    pub open spec fn spec_scrap_yield(self) -> Seq<(Item, u32)> {
        match self {
            Item::GoldCoin => seq![],
            Item::HealthPotion => seq![(Item::Glass, 1u32), (Item::OrganicMaterial, 2u32), (Item::Crystal, 1u32)],
            Item::Torch => seq![(Item::Wood, 1u32), (Item::OrganicMaterial, 1u32)],
            Item::Rock => seq![(Item::Crystal, 1u32)],
            Item::Mushroom => seq![(Item::OrganicMaterial, 2u32)],
            Item::Wood => seq![],
            Item::Steel => seq![],
            Item::Copper => seq![],
            Item::Screws => seq![],
            Item::Crystal => seq![],
            Item::SyntheticMaterial => seq![],
            Item::Glass => seq![],
            Item::OrganicMaterial => seq![],
            Item::IronSword => seq![(Item::Steel, 2u32), (Item::Wood, 1u32), (Item::Screws, 1u32)],
            Item::SteelAxe => seq![(Item::Steel, 3u32), (Item::Wood, 2u32), (Item::Screws, 1u32)],
            Item::CopperKnife => seq![(Item::Copper, 2u32), (Item::Screws, 1u32)],
            Item::CombatSpear => seq![(Item::Wood, 2u32), (Item::Steel, 1u32), (Item::Screws, 1u32)],
            Item::PipeRevolver => seq![(Item::Steel, 2u32), (Item::Copper, 1u32), (Item::Screws, 2u32)],
            Item::LeatherVest => seq![(Item::OrganicMaterial, 3u32), (Item::Screws, 2u32)],
            Item::ChainMail => seq![(Item::Steel, 4u32), (Item::Screws, 3u32)],
            Item::SteelBoots => seq![(Item::Steel, 2u32), (Item::OrganicMaterial, 1u32), (Item::Screws, 1u32)],
            Item::SynthHelmet => seq![(Item::SyntheticMaterial, 3u32), (Item::Glass, 1u32), (Item::Screws, 2u32)],
            Item::StimPack => seq![(Item::OrganicMaterial, 2u32), (Item::Crystal, 1u32), (Item::Glass, 1u32)],
            Item::CannedGoods => seq![(Item::Steel, 1u32), (Item::OrganicMaterial, 2u32)],
            Item::FilterWater => seq![(Item::Glass, 2u32), (Item::OrganicMaterial, 1u32)],
            Item::FragGrenade => seq![(Item::Steel, 1u32), (Item::Copper, 1u32), (Item::Screws, 2u32)],
            Item::StunGrenade => seq![(Item::Crystal, 1u32), (Item::Copper, 1u32), (Item::Screws, 2u32)],
            Item::LaserRifle => seq![(Item::Crystal, 2u32), (Item::SyntheticMaterial, 2u32), (Item::Glass, 1u32), (Item::Screws, 2u32)],
            Item::PlasmaRifle => seq![(Item::Crystal, 3u32), (Item::SyntheticMaterial, 1u32), (Item::Screws, 2u32)],
            Item::ScatterGun => seq![(Item::Steel, 3u32), (Item::Copper, 2u32), (Item::Screws, 3u32)],
            Item::PulseCannon => seq![(Item::Crystal, 2u32), (Item::SyntheticMaterial, 3u32), (Item::Glass, 2u32), (Item::Screws, 2u32)],
            Item::StealthDevice => seq![(Item::Crystal, 2u32), (Item::SyntheticMaterial, 2u32), (Item::Screws, 1u32)],
            Item::PhaseDevice => seq![(Item::Crystal, 3u32), (Item::SyntheticMaterial, 2u32), (Item::Screws, 2u32)],
            Item::FrostScroll => seq![],
            Item::LightningScroll => seq![],
            Item::VoidScroll => seq![],
            Item::ResonanceLens => seq![],
        }
    }

    pub fn scrap_yield(self) -> (v: Vec<(Item, u32)>)
        ensures
            v@ == self.spec_scrap_yield(),
    {
        let v = match self {
            Item::GoldCoin => Vec::new(),
            Item::HealthPotion => vec![(Item::Glass, 1), (Item::OrganicMaterial, 2), (Item::Crystal, 1)],
            Item::Torch => vec![(Item::Wood, 1), (Item::OrganicMaterial, 1)],
            Item::Rock => vec![(Item::Crystal, 1)],
            Item::Mushroom => vec![(Item::OrganicMaterial, 2)],
            Item::Wood => Vec::new(),
            Item::Steel => Vec::new(),
            Item::Copper => Vec::new(),
            Item::Screws => Vec::new(),
            Item::Crystal => Vec::new(),
            Item::SyntheticMaterial => Vec::new(),
            Item::Glass => Vec::new(),
            Item::OrganicMaterial => Vec::new(),
            Item::IronSword => vec![(Item::Steel, 2), (Item::Wood, 1), (Item::Screws, 1)],
            Item::SteelAxe => vec![(Item::Steel, 3), (Item::Wood, 2), (Item::Screws, 1)],
            Item::CopperKnife => vec![(Item::Copper, 2), (Item::Screws, 1)],
            Item::CombatSpear => vec![(Item::Wood, 2), (Item::Steel, 1), (Item::Screws, 1)],
            Item::PipeRevolver => vec![(Item::Steel, 2), (Item::Copper, 1), (Item::Screws, 2)],
            Item::LeatherVest => vec![(Item::OrganicMaterial, 3), (Item::Screws, 2)],
            Item::ChainMail => vec![(Item::Steel, 4), (Item::Screws, 3)],
            Item::SteelBoots => vec![(Item::Steel, 2), (Item::OrganicMaterial, 1), (Item::Screws, 1)],
            Item::SynthHelmet => vec![(Item::SyntheticMaterial, 3), (Item::Glass, 1), (Item::Screws, 2)],
            Item::StimPack => vec![(Item::OrganicMaterial, 2), (Item::Crystal, 1), (Item::Glass, 1)],
            Item::CannedGoods => vec![(Item::Steel, 1), (Item::OrganicMaterial, 2)],
            Item::FilterWater => vec![(Item::Glass, 2), (Item::OrganicMaterial, 1)],
            Item::FragGrenade => vec![(Item::Steel, 1), (Item::Copper, 1), (Item::Screws, 2)],
            Item::StunGrenade => vec![(Item::Crystal, 1), (Item::Copper, 1), (Item::Screws, 2)],
            Item::LaserRifle => vec![(Item::Crystal, 2), (Item::SyntheticMaterial, 2), (Item::Glass, 1), (Item::Screws, 2)],
            Item::PlasmaRifle => vec![(Item::Crystal, 3), (Item::SyntheticMaterial, 1), (Item::Screws, 2)],
            Item::ScatterGun => vec![(Item::Steel, 3), (Item::Copper, 2), (Item::Screws, 3)],
            Item::PulseCannon => vec![(Item::Crystal, 2), (Item::SyntheticMaterial, 3), (Item::Glass, 2), (Item::Screws, 2)],
            Item::StealthDevice => vec![(Item::Crystal, 2), (Item::SyntheticMaterial, 2), (Item::Screws, 1)],
            Item::PhaseDevice => vec![(Item::Crystal, 3), (Item::SyntheticMaterial, 2), (Item::Screws, 2)],
            Item::FrostScroll => Vec::new(),
            Item::LightningScroll => Vec::new(),
            Item::VoidScroll => Vec::new(),
            Item::ResonanceLens => Vec::new(),
        };
        proof {
            assert(v@ =~= self.spec_scrap_yield());
        }
        v
    }

    /// Display name.
    pub fn name(self) -> (s: &'static str)
        ensures
            s@ == self.spec_name(),
    {
        match self {
            Item::GoldCoin => "Gold Coin",
            Item::HealthPotion => "Health Potion",
            Item::Torch => "Torch",
            Item::Rock => "Rock",
            Item::Mushroom => "Mushroom",
            Item::Wood => "Wood",
            Item::Steel => "Steel",
            Item::Copper => "Copper",
            Item::Screws => "Screws",
            Item::Crystal => "Crystal",
            Item::SyntheticMaterial => "Synthetic Material",
            Item::Glass => "Glass",
            Item::OrganicMaterial => "Organic Material",
            Item::IronSword => "Iron Sword",
            Item::SteelAxe => "Steel Axe",
            Item::CopperKnife => "Copper Knife",
            Item::CombatSpear => "Combat Spear",
            Item::PipeRevolver => "Pipe Revolver",
            Item::LeatherVest => "Leather Vest",
            Item::ChainMail => "Chain Mail",
            Item::SteelBoots => "Steel Boots",
            Item::SynthHelmet => "Synth Helmet",
            Item::StimPack => "Stim Pack",
            Item::CannedGoods => "Canned Goods",
            Item::FilterWater => "Filtered Water",
            Item::FragGrenade => "Frag Grenade",
            Item::StunGrenade => "Stun Grenade",
            Item::LaserRifle => "Laser Rifle",
            Item::PlasmaRifle => "Plasma Rifle",
            Item::ScatterGun => "Scatter Gun",
            Item::PulseCannon => "Pulse Cannon",
            Item::StealthDevice => "Stealth Device",
            Item::PhaseDevice => "Phase Device",
            Item::FrostScroll => "Frost Scroll",
            Item::LightningScroll => "Lightning Scroll",
            Item::VoidScroll => "Void Scroll",
            Item::ResonanceLens => "Resonance Lens",
        }
    }

    pub open spec fn spec_name(self) -> Seq<char> {
        match self {
            Item::GoldCoin => "Gold Coin"@,
            Item::HealthPotion => "Health Potion"@,
            Item::Torch => "Torch"@,
            Item::Rock => "Rock"@,
            Item::Mushroom => "Mushroom"@,
            Item::Wood => "Wood"@,
            Item::Steel => "Steel"@,
            Item::Copper => "Copper"@,
            Item::Screws => "Screws"@,
            Item::Crystal => "Crystal"@,
            Item::SyntheticMaterial => "Synthetic Material"@,
            Item::Glass => "Glass"@,
            Item::OrganicMaterial => "Organic Material"@,
            Item::IronSword => "Iron Sword"@,
            Item::SteelAxe => "Steel Axe"@,
            Item::CopperKnife => "Copper Knife"@,
            Item::CombatSpear => "Combat Spear"@,
            Item::PipeRevolver => "Pipe Revolver"@,
            Item::LeatherVest => "Leather Vest"@,
            Item::ChainMail => "Chain Mail"@,
            Item::SteelBoots => "Steel Boots"@,
            Item::SynthHelmet => "Synth Helmet"@,
            Item::StimPack => "Stim Pack"@,
            Item::CannedGoods => "Canned Goods"@,
            Item::FilterWater => "Filtered Water"@,
            Item::FragGrenade => "Frag Grenade"@,
            Item::StunGrenade => "Stun Grenade"@,
            Item::LaserRifle => "Laser Rifle"@,
            Item::PlasmaRifle => "Plasma Rifle"@,
            Item::ScatterGun => "Scatter Gun"@,
            Item::PulseCannon => "Pulse Cannon"@,
            Item::StealthDevice => "Stealth Device"@,
            Item::PhaseDevice => "Phase Device"@,
            Item::FrostScroll => "Frost Scroll"@,
            Item::LightningScroll => "Lightning Scroll"@,
            Item::VoidScroll => "Void Scroll"@,
            Item::ResonanceLens => "Resonance Lens"@,
        }
    }

    /// Character used to draw the item.
    pub fn glyph(self) -> (s: &'static str)
        ensures
            s@ == self.spec_glyph(),
    {
        match self {
            Item::GoldCoin => "$",
            Item::HealthPotion => "!",
            Item::Torch => "/",
            Item::Rock => "`",
            Item::Mushroom => "%",
            Item::Wood => "/",
            Item::Steel => "]",
            Item::Copper => "}",
            Item::Screws => ":",
            Item::Crystal => "*",
            Item::SyntheticMaterial => ">",
            Item::Glass => "=",
            Item::OrganicMaterial => "~",
            Item::IronSword => ")",
            Item::SteelAxe => "(",
            Item::CopperKnife => "-",
            Item::CombatSpear => "|",
            Item::PipeRevolver => "?",
            Item::LeatherVest => "[",
            Item::ChainMail => "{",
            Item::SteelBoots => "b",
            Item::SynthHelmet => "^",
            Item::StimPack => "+",
            Item::CannedGoods => "o",
            Item::FilterWater => "u",
            Item::FragGrenade => "g",
            Item::StunGrenade => "g",
            Item::LaserRifle => "\\",
            Item::PlasmaRifle => "\\",
            Item::ScatterGun => "?",
            Item::PulseCannon => "\\",
            Item::StealthDevice => "d",
            Item::PhaseDevice => "d",
            Item::FrostScroll => "?",
            Item::LightningScroll => "?",
            Item::VoidScroll => "?",
            Item::ResonanceLens => "*",
        }
    }

    pub open spec fn spec_glyph(self) -> Seq<char> {
        match self {
            Item::GoldCoin => "$"@,
            Item::HealthPotion => "!"@,
            Item::Torch => "/"@,
            Item::Rock => "`"@,
            Item::Mushroom => "%"@,
            Item::Wood => "/"@,
            Item::Steel => "]"@,
            Item::Copper => "}"@,
            Item::Screws => ":"@,
            Item::Crystal => "*"@,
            Item::SyntheticMaterial => ">"@,
            Item::Glass => "="@,
            Item::OrganicMaterial => "~"@,
            Item::IronSword => ")"@,
            Item::SteelAxe => "("@,
            Item::CopperKnife => "-"@,
            Item::CombatSpear => "|"@,
            Item::PipeRevolver => "?"@,
            Item::LeatherVest => "["@,
            Item::ChainMail => "{"@,
            Item::SteelBoots => "b"@,
            Item::SynthHelmet => "^"@,
            Item::StimPack => "+"@,
            Item::CannedGoods => "o"@,
            Item::FilterWater => "u"@,
            Item::FragGrenade => "g"@,
            Item::StunGrenade => "g"@,
            Item::LaserRifle => "\\"@,
            Item::PlasmaRifle => "\\"@,
            Item::ScatterGun => "?"@,
            Item::PulseCannon => "\\"@,
            Item::StealthDevice => "d"@,
            Item::PhaseDevice => "d"@,
            Item::FrostScroll => "?"@,
            Item::LightningScroll => "?"@,
            Item::VoidScroll => "?"@,
            Item::ResonanceLens => "*"@,
        }
    }

    /// Stable numeric key of the item, in declaration order; inventories are keyed by it.
    pub open spec fn spec_id(self) -> u32 {
        match self {
            Item::GoldCoin => 0,
            Item::HealthPotion => 1,
            Item::Torch => 2,
            Item::Rock => 3,
            Item::Mushroom => 4,
            Item::Wood => 5,
            Item::Steel => 6,
            Item::Copper => 7,
            Item::Screws => 8,
            Item::Crystal => 9,
            Item::SyntheticMaterial => 10,
            Item::Glass => 11,
            Item::OrganicMaterial => 12,
            Item::IronSword => 13,
            Item::SteelAxe => 14,
            Item::CopperKnife => 15,
            Item::CombatSpear => 16,
            Item::PipeRevolver => 17,
            Item::LeatherVest => 18,
            Item::ChainMail => 19,
            Item::SteelBoots => 20,
            Item::SynthHelmet => 21,
            Item::StimPack => 22,
            Item::CannedGoods => 23,
            Item::FilterWater => 24,
            Item::FragGrenade => 25,
            Item::StunGrenade => 26,
            Item::LaserRifle => 27,
            Item::PlasmaRifle => 28,
            Item::ScatterGun => 29,
            Item::PulseCannon => 30,
            Item::StealthDevice => 31,
            Item::PhaseDevice => 32,
            Item::FrostScroll => 33,
            Item::LightningScroll => 34,
            Item::VoidScroll => 35,
            Item::ResonanceLens => 36,
        }
    }

    #[verifier::when_used_as_spec(spec_id)]
    pub fn id(self) -> (k: u32)
        ensures
            k == self.spec_id(),
    {
        match self {
            Item::GoldCoin => 0,
            Item::HealthPotion => 1,
            Item::Torch => 2,
            Item::Rock => 3,
            Item::Mushroom => 4,
            Item::Wood => 5,
            Item::Steel => 6,
            Item::Copper => 7,
            Item::Screws => 8,
            Item::Crystal => 9,
            Item::SyntheticMaterial => 10,
            Item::Glass => 11,
            Item::OrganicMaterial => 12,
            Item::IronSword => 13,
            Item::SteelAxe => 14,
            Item::CopperKnife => 15,
            Item::CombatSpear => 16,
            Item::PipeRevolver => 17,
            Item::LeatherVest => 18,
            Item::ChainMail => 19,
            Item::SteelBoots => 20,
            Item::SynthHelmet => 21,
            Item::StimPack => 22,
            Item::CannedGoods => 23,
            Item::FilterWater => 24,
            Item::FragGrenade => 25,
            Item::StunGrenade => 26,
            Item::LaserRifle => 27,
            Item::PlasmaRifle => 28,
            Item::ScatterGun => 29,
            Item::PulseCannon => 30,
            Item::StealthDevice => 31,
            Item::PhaseDevice => 32,
            Item::FrostScroll => 33,
            Item::LightningScroll => 34,
            Item::VoidScroll => 35,
            Item::ResonanceLens => 36,
        }
    }

    pub open spec fn spec_can_salvage(self) -> bool {
        self.spec_scrap_yield().len() > 0
    }

    pub fn can_salvage(self) -> (b: bool)
        ensures
            b == self.spec_can_salvage(),
    {
        self.scrap_yield().len() > 0
    }

    pub fn is_weapon(self) -> (b: bool)
        ensures
            b == (self.spec_equip_slot() == Some(EquipSlot::Weapon)),
    {
        matches!(self.equip_slot(), Some(EquipSlot::Weapon))
    }

    pub fn is_armor(self) -> (b: bool)
        ensures
            b == (self.spec_equip_slot() == Some(EquipSlot::Armor)),
    {
        matches!(self.equip_slot(), Some(EquipSlot::Armor))
    }

    pub fn is_grenade(self) -> (b: bool)
        ensures
            b == (self.spec_equip_slot() == Some(EquipSlot::Grenade)),
    {
        matches!(self.equip_slot(), Some(EquipSlot::Grenade))
    }

    pub fn is_device(self) -> (b: bool)
        ensures
            b == (self.spec_equip_slot() == Some(EquipSlot::Device)),
    {
        matches!(self.equip_slot(), Some(EquipSlot::Device))
    }

    /// Sprite drawn for the item lying on the ground.
    pub open spec fn spec_loot_texture(self) -> Seq<char> {
        match self {
            Item::GoldCoin => "textures/space_qud/coin.png"@,
            Item::StealthDevice => "textures/space_qud/stealth device.png"@,
            _ => if self.spec_is_ranged() {
                "textures/space_qud/gun.png"@
            } else {
                "textures/space_qud/box with highlight border.png"@
            },
        }
    }

    pub fn loot_texture(self) -> (s: &'static str)
        ensures
            s@ == self.spec_loot_texture(),
    {
        match self {
            Item::GoldCoin => "textures/space_qud/coin.png",
            Item::StealthDevice => "textures/space_qud/stealth device.png",
            _ => if self.is_ranged() {
                "textures/space_qud/gun.png"
            } else {
                "textures/space_qud/box with highlight border.png"
            },
        }
    }

    pub fn is_scroll(self) -> (b: bool)
        ensures
            b == (self == Item::FrostScroll || self == Item::LightningScroll || self == Item::VoidScroll),
    {
        matches!(self, Item::FrostScroll | Item::LightningScroll | Item::VoidScroll)
    }

    pub fn is_laser(self) -> (b: bool)
        ensures
            b == (self == Item::LaserRifle),
    {
        matches!(self, Item::LaserRifle)
    }

    pub fn is_plasma(self) -> (b: bool)
        ensures
            b == (self == Item::PlasmaRifle),
    {
        matches!(self, Item::PlasmaRifle)
    }

    pub fn is_scatter(self) -> (b: bool)
        ensures
            b == (self == Item::ScatterGun),
    {
        matches!(self, Item::ScatterGun)
    }

    pub fn is_pulse(self) -> (b: bool)
        ensures
            b == (self == Item::PulseCannon),
    {
        matches!(self, Item::PulseCannon)
    }
}

/// Distinct items have distinct keys.
pub proof fn lemma_item_id_injective(a: Item, b: Item)
    ensures
        a.spec_id() == b.spec_id() ==> a == b,
{
}

} // verus!
