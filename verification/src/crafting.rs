use vstd::prelude::*;
use std::collections::HashMap;
use crate::item::{Item, lemma_item_id_injective};

verus! {

broadcast use vstd::std_specs::hash::group_hash_axioms;

/// How to make `output_qty` of `output` from `ingredients`.
pub struct Recipe {
    pub output: Item,
    pub output_qty: u32,
    pub ingredients: Vec<(Item, u32)>,
}

/// The recipe table: each output, how many one crafting makes, and its ingredients.
pub open spec fn spec_recipes() -> Seq<(Item, u32, Seq<(Item, u32)>)> {
    seq![
        (Item::CopperKnife, 1u32, seq![(Item::Copper, 2u32), (Item::Screws, 1u32)]),
        (Item::IronSword, 1u32, seq![(Item::Steel, 2u32), (Item::Wood, 1u32), (Item::Screws, 1u32)]),
        (Item::CombatSpear, 1u32, seq![(Item::Wood, 2u32), (Item::Steel, 1u32), (Item::Screws, 1u32)]),
        (Item::SteelAxe, 1u32, seq![(Item::Steel, 3u32), (Item::Wood, 2u32), (Item::Screws, 1u32)]),
        (Item::PipeRevolver, 1u32, seq![(Item::Steel, 2u32), (Item::Copper, 1u32), (Item::Screws, 2u32)]),
        (Item::LaserRifle, 1u32, seq![(Item::Crystal, 2u32), (Item::SyntheticMaterial, 2u32), (Item::Glass, 1u32), (Item::Screws, 2u32)]),
        (Item::LeatherVest, 1u32, seq![(Item::OrganicMaterial, 3u32), (Item::Screws, 2u32)]),
        (Item::ChainMail, 1u32, seq![(Item::Steel, 4u32), (Item::Screws, 3u32)]),
        (Item::SteelBoots, 1u32, seq![(Item::Steel, 2u32), (Item::OrganicMaterial, 1u32), (Item::Screws, 1u32)]),
        (Item::SynthHelmet, 1u32, seq![(Item::SyntheticMaterial, 3u32), (Item::Glass, 1u32), (Item::Screws, 2u32)]),
        (Item::FragGrenade, 1u32, seq![(Item::Steel, 1u32), (Item::Copper, 1u32), (Item::Screws, 2u32)]),
        (Item::StunGrenade, 1u32, seq![(Item::Crystal, 1u32), (Item::Copper, 1u32), (Item::Screws, 2u32)]),
        (Item::HealthPotion, 1u32, seq![(Item::Glass, 1u32), (Item::OrganicMaterial, 2u32), (Item::Crystal, 1u32)]),
        (Item::StimPack, 1u32, seq![(Item::OrganicMaterial, 2u32), (Item::Crystal, 1u32), (Item::Glass, 1u32)]),
        (Item::CannedGoods, 1u32, seq![(Item::Steel, 1u32), (Item::OrganicMaterial, 2u32)]),
        (Item::FilterWater, 1u32, seq![(Item::Glass, 2u32), (Item::OrganicMaterial, 1u32)]),
        (Item::Torch, 1u32, seq![(Item::Wood, 1u32), (Item::OrganicMaterial, 1u32)]),
    ]
}

/// The recipe `r` as a table entry.
pub open spec fn recipe_entry(r: Recipe) -> (Item, u32, Seq<(Item, u32)>) {
    (r.output, r.output_qty, r.ingredients@)
}

/// Every recipe the crafting table offers, in menu order.
pub fn recipes() -> (rs: Vec<Recipe>)
    ensures
        rs@.len() == spec_recipes().len(),
        forall|i: int| 0 <= i < rs@.len() ==> recipe_entry(#[trigger] rs@[i]) == spec_recipes()[i],
{
    vec![
        Recipe { output: Item::CopperKnife, output_qty: 1, ingredients: vec![(Item::Copper, 2), (Item::Screws, 1)] },
        Recipe { output: Item::IronSword, output_qty: 1, ingredients: vec![(Item::Steel, 2), (Item::Wood, 1), (Item::Screws, 1)] },
        Recipe { output: Item::CombatSpear, output_qty: 1, ingredients: vec![(Item::Wood, 2), (Item::Steel, 1), (Item::Screws, 1)] },
        Recipe { output: Item::SteelAxe, output_qty: 1, ingredients: vec![(Item::Steel, 3), (Item::Wood, 2), (Item::Screws, 1)] },
        Recipe { output: Item::PipeRevolver, output_qty: 1, ingredients: vec![(Item::Steel, 2), (Item::Copper, 1), (Item::Screws, 2)] },
        Recipe { output: Item::LaserRifle, output_qty: 1, ingredients: vec![(Item::Crystal, 2), (Item::SyntheticMaterial, 2), (Item::Glass, 1), (Item::Screws, 2)] },
        Recipe { output: Item::LeatherVest, output_qty: 1, ingredients: vec![(Item::OrganicMaterial, 3), (Item::Screws, 2)] },
        Recipe { output: Item::ChainMail, output_qty: 1, ingredients: vec![(Item::Steel, 4), (Item::Screws, 3)] },
        Recipe { output: Item::SteelBoots, output_qty: 1, ingredients: vec![(Item::Steel, 2), (Item::OrganicMaterial, 1), (Item::Screws, 1)] },
        Recipe { output: Item::SynthHelmet, output_qty: 1, ingredients: vec![(Item::SyntheticMaterial, 3), (Item::Glass, 1), (Item::Screws, 2)] },
        Recipe { output: Item::FragGrenade, output_qty: 1, ingredients: vec![(Item::Steel, 1), (Item::Copper, 1), (Item::Screws, 2)] },
        Recipe { output: Item::StunGrenade, output_qty: 1, ingredients: vec![(Item::Crystal, 1), (Item::Copper, 1), (Item::Screws, 2)] },
        Recipe { output: Item::HealthPotion, output_qty: 1, ingredients: vec![(Item::Glass, 1), (Item::OrganicMaterial, 2), (Item::Crystal, 1)] },
        Recipe { output: Item::StimPack, output_qty: 1, ingredients: vec![(Item::OrganicMaterial, 2), (Item::Crystal, 1), (Item::Glass, 1)] },
        Recipe { output: Item::CannedGoods, output_qty: 1, ingredients: vec![(Item::Steel, 1), (Item::OrganicMaterial, 2)] },
        Recipe { output: Item::FilterWater, output_qty: 1, ingredients: vec![(Item::Glass, 2), (Item::OrganicMaterial, 1)] },
        Recipe { output: Item::Torch, output_qty: 1, ingredients: vec![(Item::Wood, 1), (Item::OrganicMaterial, 1)] },
    ]
}

/// Salvaging the output of any recipe gives back exactly that recipe's ingredients.
pub proof fn law_salvage_returns_ingredients()
    ensures
        forall|i: int| 0 <= i < spec_recipes().len() ==> (#[trigger] spec_recipes()[i]).0.spec_can_salvage()
            && spec_recipes()[i].0.spec_scrap_yield() == spec_recipes()[i].2,
{
    assert forall|i: int| 0 <= i < spec_recipes().len() implies (#[trigger] spec_recipes()[i]).0.spec_can_salvage()
        && spec_recipes()[i].0.spec_scrap_yield() == spec_recipes()[i].2 by {
        let t = spec_recipes();
        assert(t[i].0.spec_scrap_yield() =~= t[i].2);
    }
}

/// How many of `it` an inventory keyed by [`Item::id`] holds (absent keys hold none).
pub open spec fn count(inv: Map<u32, u32>, it: Item) -> u32 {
    if inv.contains_key(it.spec_id()) { inv[it.spec_id()] } else { 0 }
}

/// The inventory holds every ingredient in the quantity the recipe needs.
pub open spec fn has_ingredients(inv: Map<u32, u32>, ingredients: Seq<(Item, u32)>) -> bool {
    forall|i: int| 0 <= i < ingredients.len() ==> count(inv, #[trigger] ingredients[i].0) >= ingredients[i].1
}

/// Use up `need` of `it`, dropping the entry when nothing is left.
pub open spec fn take_items(inv: Map<u32, u32>, it: Item, need: u32) -> Map<u32, u32> {
    let left = if count(inv, it) >= need { (count(inv, it) - need) as u32 } else { 0u32 };
    if left == 0 {
        inv.remove(it.spec_id())
    } else {
        inv.insert(it.spec_id(), left)
    }
}

/// The inventory after using up each ingredient in turn.
pub open spec fn after_ingredients(inv: Map<u32, u32>, ingredients: Seq<(Item, u32)>) -> Map<u32, u32>
    decreases ingredients.len(),
{
    if ingredients.len() == 0 {
        inv
    } else {
        let prev = after_ingredients(inv, ingredients.drop_last());
        take_items(prev, ingredients.last().0, ingredients.last().1)
    }
}

/// The inventory after crafting `recipe` once.
pub open spec fn crafted(inv: Map<u32, u32>, recipe: Recipe) -> Map<u32, u32> {
    let m = after_ingredients(inv, recipe.ingredients@);
    m.insert(recipe.output.spec_id(), (count(m, recipe.output) + recipe.output_qty) as u32)
}

pub fn can_craft(inv: &HashMap<u32, u32>, recipe: &Recipe) -> (b: bool)
    ensures
        b == has_ingredients(inv@, recipe.ingredients@),
{
    let n = recipe.ingredients.len();
    let mut i: usize = 0;
    while i < n
        invariant
            n == recipe.ingredients@.len(),
            i <= n,
            forall|j: int| 0 <= j < i ==> count(inv@, #[trigger] recipe.ingredients@[j].0) >= recipe.ingredients@[j].1,
        decreases n - i,
    {
        let (it, need) = recipe.ingredients[i];
        let have = match inv.get(&it.id()) {
            Some(v) => *v,
            None => 0,
        };
        if have < need {
            return false;
        }
        i = i + 1;
    }
    true
}

pub fn apply_craft(inv: &mut HashMap<u32, u32>, recipe: &Recipe)
    requires
        count(after_ingredients(old(inv)@, recipe.ingredients@), recipe.output) + recipe.output_qty <= u32::MAX,
    ensures
        final(inv)@ == crafted(old(inv)@, *recipe),
{
    let n = recipe.ingredients.len();
    let mut i: usize = 0;
    while i < n
        invariant
            n == recipe.ingredients@.len(),
            i <= n,
            inv@ == after_ingredients(old(inv)@, recipe.ingredients@.take(i as int)),
        decreases n - i,
    {
        let (it, need) = recipe.ingredients[i];
        let key = it.id();
        let have = match inv.get(&key) {
            Some(v) => *v,
            None => 0,
        };
        let left = have.saturating_sub(need);
        if left == 0 {
            inv.remove(&key);
        } else {
            inv.insert(key, left);
        }
        proof {
            assert(recipe.ingredients@.take(i + 1).drop_last() =~= recipe.ingredients@.take(i as int));
        }
        i = i + 1;
    }
    proof {
        assert(recipe.ingredients@.take(n as int) =~= recipe.ingredients@);
    }
    let out = recipe.output.id();
    let have = match inv.get(&out) {
        Some(v) => *v,
        None => 0,
    };
    inv.insert(out, have + recipe.output_qty);
}


/// Total quantity of `it` the ingredient list asks for.
pub open spec fn need_of(ingredients: Seq<(Item, u32)>, it: Item) -> int
    decreases ingredients.len(),
{
    if ingredients.len() == 0 {
        0
    } else {
        need_of(ingredients.drop_last(), it) + if ingredients.last().0 == it { ingredients.last().1 as int } else { 0 }
    }
}

proof fn lemma_after_ingredients_counts(inv: Map<u32, u32>, ingredients: Seq<(Item, u32)>, it: Item)
    requires
        forall|x: Item| count(inv, x) >= #[trigger] need_of(ingredients, x),
    ensures
        count(after_ingredients(inv, ingredients), it) == count(inv, it) - need_of(ingredients, it),
    decreases ingredients.len(),
{
    if ingredients.len() > 0 {
        let init = ingredients.drop_last();
        assert forall|x: Item| count(inv, x) >= #[trigger] need_of(init, x) by {
            assert(need_of(ingredients, x) >= need_of(init, x));
        }
        let (last, need) = ingredients.last();
        lemma_after_ingredients_counts(inv, init, it);
        lemma_after_ingredients_counts(inv, init, last);
        assert(need_of(ingredients, last) == need_of(init, last) + need);
        lemma_item_id_injective(it, last);
    }
}

/// Crafting once removes exactly what the ingredient list asks for and adds the output,
/// leaving every other item alone, whenever the inventory holds enough of everything.
pub proof fn law_craft_moves_items(inv: Map<u32, u32>, recipe: Recipe, it: Item)
    requires
        forall|x: Item| count(inv, x) >= #[trigger] need_of(recipe.ingredients@, x),
        count(after_ingredients(inv, recipe.ingredients@), recipe.output) + recipe.output_qty <= u32::MAX,
    ensures
        count(crafted(inv, recipe), it) == count(inv, it) - need_of(recipe.ingredients@, it) + if it
            == recipe.output { recipe.output_qty as int } else { 0 },
{
    lemma_after_ingredients_counts(inv, recipe.ingredients@, it);
    lemma_item_id_injective(it, recipe.output);
}

/// Rows of the crafting menu shown at once.
pub const CRAFT_VISIBLE_ROWS: usize = 12;

/// The crafting menu's scroll that keeps row `selected` in view, moving as little as possible
/// from `old_scroll`.
pub fn craft_scroll_for(selected: usize, old_scroll: usize) -> (s: usize)
    requires
        old_scroll + CRAFT_VISIBLE_ROWS <= usize::MAX,
    ensures
        s == if selected < old_scroll {
            selected as int
        } else if selected >= old_scroll + CRAFT_VISIBLE_ROWS {
            selected + 1 - CRAFT_VISIBLE_ROWS
        } else {
            old_scroll as int
        },
        s <= selected < s + CRAFT_VISIBLE_ROWS,
{
    if selected < old_scroll {
        selected
    } else if selected >= old_scroll + CRAFT_VISIBLE_ROWS {
        selected - (CRAFT_VISIBLE_ROWS - 1)
    } else {
        old_scroll
    }
}

/// The inventory with each `(item, qty)` of `ys` added in turn.
pub open spec fn add_yield(inv: Map<u32, u32>, ys: Seq<(Item, u32)>) -> Map<u32, u32>
    decreases ys.len(),
{
    if ys.len() == 0 {
        inv
    } else {
        let m = add_yield(inv, ys.drop_last());
        m.insert(ys.last().0.spec_id(), (count(m, ys.last().0) + ys.last().1) as u32)
    }
}

/// No count overflows while `ys` is added to `inv`.
pub open spec fn yield_fits(inv: Map<u32, u32>, ys: Seq<(Item, u32)>) -> bool
    decreases ys.len(),
{
    ys.len() == 0 || (yield_fits(inv, ys.drop_last()) && count(add_yield(inv, ys.drop_last()), ys.last().0) + ys.last().1 <= u32::MAX)
}

/// The inventory with one `it` taken out (its entry dropped when none is left).
pub open spec fn take_one(inv: Map<u32, u32>, it: Item) -> Map<u32, u32> {
    take_items(inv, it, 1)
}

/// The inventory after salvaging one `it`: when it holds one, that one is taken out and its
/// scrap added; otherwise nothing changes.
pub open spec fn salvaged(inv: Map<u32, u32>, it: Item) -> Map<u32, u32> {
    if count(inv, it) > 0 { add_yield(take_one(inv, it), it.spec_scrap_yield()) } else { inv }
}

/// Salvages one `it` from the inventory, if it holds one: returns whether it did.
pub fn salvage(inv: &mut HashMap<u32, u32>, it: Item) -> (done: bool)
    requires
        count(old(inv)@, it) > 0 ==> yield_fits(take_one(old(inv)@, it), it.spec_scrap_yield()),
    ensures
        done == (count(old(inv)@, it) > 0),
        final(inv)@ == salvaged(old(inv)@, it),
{
    let key = it.id();
    let have = match inv.get(&key) {
        Some(v) => *v,
        None => 0,
    };
    if have == 0 {
        return false;
    }
    if have == 1 {
        inv.remove(&key);
    } else {
        inv.insert(key, have - 1);
    }
    let ghost start = inv@;
    let ys = it.scrap_yield();
    let mut i: usize = 0;
    while i < ys.len()
        invariant
            ys@ == it.spec_scrap_yield(),
            i <= ys@.len(),
            yield_fits(start, ys@),
            inv@ == add_yield(start, ys@.take(i as int)),
        decreases ys@.len() - i,
    {
        let (comp, q) = ys[i];
        proof {
            assert(ys@.take(i + 1).drop_last() =~= ys@.take(i as int));
            lemma_yield_fits_prefix(start, ys@, i as int + 1);
        }
        let k = comp.id();
        let cur = match inv.get(&k) {
            Some(v) => *v,
            None => 0,
        };
        inv.insert(k, cur + q);
        i = i + 1;
    }
    proof {
        assert(ys@.take(ys@.len() as int) =~= ys@);
    }
    true
}

/// A prefix of a list that fits fits too.
proof fn lemma_yield_fits_prefix(inv: Map<u32, u32>, ys: Seq<(Item, u32)>, k: int)
    requires
        yield_fits(inv, ys),
        0 <= k <= ys.len(),
    ensures
        yield_fits(inv, ys.take(k)),
    decreases ys.len() - k,
{
    if k < ys.len() {
        assert(ys.drop_last() =~= ys.take(ys.len() - 1));
        lemma_yield_fits_prefix(inv, ys.drop_last(), k);
        assert(ys.drop_last().take(k) =~= ys.take(k));
    } else {
        assert(ys.take(k) =~= ys);
    }
}

} // verus!
