use std::collections::HashMap;
use space_qud::crafting::{apply_craft, can_craft, craft_scroll_for, recipes, salvage, Recipe};
use space_qud::item::Item;

fn inv(items: &[(Item, u32)]) -> HashMap<u32, u32> {
    let mut m = HashMap::new();
    for &(it, n) in items {
        m.insert(it.id(), n);
    }
    m
}

fn recipe_for(out: Item) -> Recipe {
    recipes().into_iter().find(|r| r.output == out).unwrap()
}

#[test]
fn seventeen_recipes() {
    assert_eq!(recipes().len(), 17);
}

#[test]
fn knife_needs_copper_and_screws() {
    let r = recipe_for(Item::CopperKnife);
    assert!(can_craft(&inv(&[(Item::Copper, 2), (Item::Screws, 1)]), &r));
    assert!(!can_craft(&inv(&[(Item::Copper, 1), (Item::Screws, 1)]), &r));
    assert!(!can_craft(&inv(&[(Item::Copper, 5)]), &r));
}

#[test]
fn crafting_consumes_ingredients_and_adds_output() {
    let r = recipe_for(Item::IronSword);
    let mut m = inv(&[(Item::Steel, 3), (Item::Wood, 1), (Item::Screws, 1), (Item::IronSword, 1)]);
    assert!(can_craft(&m, &r));
    apply_craft(&mut m, &r);
    assert_eq!(m.get(&Item::Steel.id()), Some(&1));
    assert_eq!(m.get(&Item::Wood.id()), None);
    assert_eq!(m.get(&Item::Screws.id()), None);
    assert_eq!(m.get(&Item::IronSword.id()), Some(&2));
}

#[test]
fn crafting_a_torch() {
    let r = recipe_for(Item::Torch);
    let mut m = inv(&[(Item::Wood, 2), (Item::OrganicMaterial, 1)]);
    apply_craft(&mut m, &r);
    assert_eq!(m.get(&Item::Wood.id()), Some(&1));
    assert_eq!(m.get(&Item::OrganicMaterial.id()), None);
    assert_eq!(m.get(&Item::Torch.id()), Some(&1));
}

#[test]
fn crafting_menu_scrolls_to_keep_the_selection_in_view() {
    assert_eq!(craft_scroll_for(3, 5), 3);
    assert_eq!(craft_scroll_for(20, 5), 9);
    assert_eq!(craft_scroll_for(10, 5), 5);
    assert_eq!(craft_scroll_for(16, 5), 5);
    assert_eq!(craft_scroll_for(17, 5), 6);
}

#[test]
fn salvaging_a_craft_gives_back_its_ingredients() {
    for r in recipes() {
        assert!(r.output.can_salvage());
        assert_eq!(r.output.scrap_yield(), r.ingredients);
        assert_eq!(r.output_qty, 1);
    }
    assert_eq!(recipes()[0].output, Item::CopperKnife);
    assert_eq!(recipes()[16].output, Item::Torch);
}

#[test]
fn salvage_takes_one_and_adds_its_scrap() {
    let mut inv: HashMap<u32, u32> = HashMap::new();
    inv.insert(Item::IronSword.id(), 1);
    inv.insert(Item::Steel.id(), 5);
    assert!(salvage(&mut inv, Item::IronSword));
    assert_eq!(inv.get(&Item::IronSword.id()), None);
    assert_eq!(inv.get(&Item::Steel.id()), Some(&7));
    assert_eq!(inv.get(&Item::Wood.id()), Some(&1));
    assert_eq!(inv.get(&Item::Screws.id()), Some(&1));
    assert!(!salvage(&mut inv, Item::IronSword));
    inv.insert(Item::Torch.id(), 2);
    assert!(salvage(&mut inv, Item::Torch));
    assert_eq!(inv.get(&Item::Torch.id()), Some(&1));
    assert_eq!(inv.get(&Item::Wood.id()), Some(&2));
}
