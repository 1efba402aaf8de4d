//! Chest contents: stacks of items, merged by kind.
use vstd::prelude::*;
use crate::item::Item;
use crate::level::Level;
use crate::rng::{thread_rng, thread_shuffle_positions};

verus! {

/// Total quantity of `item` over the stacks.
pub open spec fn qty_of(s: Seq<(Item, u32)>, item: Item) -> int
    decreases s.len(),
{
    if s.len() == 0 {
        0
    } else {
        qty_of(s.drop_last(), item) + if s.last().0 == item { s.last().1 as int } else { 0 }
    }
}

/// No item has two stacks.
pub open spec fn stacks_unique(s: Seq<(Item, u32)>) -> bool {
    forall|i: int, j: int| 0 <= i < j < s.len() ==> (#[trigger] s[i]).0 != (#[trigger] s[j]).0
}

/// `after` is `before` with `qty` more of `item`: added to its first stack, or as a new stack
/// at the end when there is none.
pub open spec fn merged(before: Seq<(Item, u32)>, after: Seq<(Item, u32)>, item: Item, qty: u32) -> bool {
    ||| (exists|i: int| 0 <= i < before.len() && before[i].0 == item
            && (forall|j: int| 0 <= j < i ==> (#[trigger] before[j]).0 != item)
            && after == before.update(i, (item, (before[i].1 + qty) as u32)))
    ||| ((forall|j: int| 0 <= j < before.len() ==> (#[trigger] before[j]).0 != item) && after == before.push((item, qty)))
}

/// Adds `qty` of `item` to the stacks: onto the first stack of that item, or as a new stack.
pub fn merge(out: &mut Vec<(Item, u32)>, item: Item, qty: u32)
    requires
        forall|i: int| 0 <= i < old(out)@.len() && (#[trigger] old(out)@[i]).0 == item ==> old(out)@[i].1 + qty <= u32::MAX,
    ensures
        merged(old(out)@, final(out)@, item, qty),
{
    let mut i: usize = 0;
    while i < out.len()
        invariant
            i <= out@.len(),
            out@ == old(out)@,
            forall|i: int| 0 <= i < old(out)@.len() && (#[trigger] old(out)@[i]).0 == item ==> old(out)@[i].1 + qty <= u32::MAX,
            forall|j: int| 0 <= j < i ==> (#[trigger] out@[j]).0 != item,
        decreases out@.len() - i,
    {
        if out[i].0 == item {
            let q = out[i].1;
            out.set(i, (item, q + qty));
            return;
        }
        i = i + 1;
    }
    out.push((item, qty));
}

/// Quantity of an item after merging: `qty` more of `item`, the same of every other item.
proof fn lemma_qty_update(s: Seq<(Item, u32)>, i: int, item: Item, q: u32, other: Item)
    requires
        0 <= i < s.len(),
        s[i].0 == item,
    ensures
        qty_of(s.update(i, (item, q)), other) == qty_of(s, other) + if other == item { q - s[i].1 } else { 0 },
    decreases s.len(),
{
    let t = s.update(i, (item, q));
    if i < s.len() - 1 {
        lemma_qty_update(s.drop_last(), i, item, q, other);
        assert(t.drop_last() == s.drop_last().update(i, (item, q)));
    } else {
        assert(t.drop_last() == s.drop_last());
    }
}

/// Merging onto the existing stack at `i`.
proof fn lemma_merge_onto(before: Seq<(Item, u32)>, i: int, item: Item, qty: u32, other: Item)
    requires
        0 <= i < before.len(),
        before[i].0 == item,
        before[i].1 + qty <= u32::MAX,
    ensures
        ({
            let after = before.update(i, (item, (before[i].1 + qty) as u32));
            &&& qty_of(after, other) == qty_of(before, other) + if other == item { qty as int } else { 0 }
            &&& stacks_unique(before) ==> stacks_unique(after)
        }),
{
    let after = before.update(i, (item, (before[i].1 + qty) as u32));
    lemma_qty_update(before, i, item, (before[i].1 + qty) as u32, other);
    assert forall|a: int, b: int| stacks_unique(before) && 0 <= a < b < after.len() implies (#[trigger] after[a]).0 != (#[trigger] after[b]).0 by {
        assert(after[a].0 == before[a].0 && after[b].0 == before[b].0);
    }
}

/// Merging as a new stack at the end.
proof fn lemma_merge_new(before: Seq<(Item, u32)>, item: Item, qty: u32, other: Item)
    requires
        forall|j: int| 0 <= j < before.len() ==> (#[trigger] before[j]).0 != item,
    ensures
        qty_of(before.push((item, qty)), other) == qty_of(before, other) + if other == item { qty as int } else { 0 },
        stacks_unique(before) ==> stacks_unique(before.push((item, qty))),
{
    let after = before.push((item, qty));
    assert(after.drop_last() == before);
    assert forall|a: int, b: int| stacks_unique(before) && 0 <= a < b < after.len() implies (#[trigger] after[a]).0 != (#[trigger] after[b]).0 by {
        if b == before.len() {
            assert(before[a].0 != item);
        } else {
            assert(after[a] == before[a] && after[b] == before[b]);
        }
    }
}

/// Merging adds exactly `qty` to the total of `item`, leaves every other item's total as it
/// was, and never gives an item a second stack.
pub proof fn law_merge_adds(before: Seq<(Item, u32)>, after: Seq<(Item, u32)>, item: Item, qty: u32, other: Item)
    requires
        merged(before, after, item, qty),
        forall|i: int| 0 <= i < before.len() && (#[trigger] before[i]).0 == item ==> before[i].1 + qty <= u32::MAX,
    ensures
        qty_of(after, other) == qty_of(before, other) + if other == item { qty as int } else { 0 },
        stacks_unique(before) ==> stacks_unique(after),
{
    if forall|j: int| 0 <= j < before.len() ==> (#[trigger] before[j]).0 != item {
        lemma_merge_new(before, item, qty, other);
    } else {
        let i = choose|i: int| 0 <= i < before.len() && before[i].0 == item
            && (forall|j: int| 0 <= j < i ==> (#[trigger] before[j]).0 != item)
            && after == before.update(i, (item, (before[i].1 + qty) as u32));
        lemma_merge_onto(before, i, item, qty, other);
    }
}

/// `(x, y)` is one of the nine tiles of the 3x3 block around `(ex, ey)`.
pub open spec fn around(ex: i32, ey: i32, x: i32, y: i32) -> bool {
    -1 <= x - ex <= 1 && -1 <= y - ey <= 1
}

/// The nine tiles of the 3x3 block around `(ex, ey)`, in the order they are listed before
/// shuffling.
pub open spec fn block_seq(ex: i32, ey: i32) -> Seq<(i32, i32)> {
    seq![((ex - 1) as i32, ey), ((ex + 1) as i32, ey), (ex, (ey - 1) as i32), (ex, (ey + 1) as i32),
        ((ex - 1) as i32, (ey - 1) as i32), ((ex + 1) as i32, (ey - 1) as i32), ((ex - 1) as i32, (ey + 1) as i32),
        ((ex + 1) as i32, (ey + 1) as i32), (ex, ey)]
}

/// The nine tiles of the 3x3 block around `(ex, ey)`.
fn block_tiles(ex: i32, ey: i32) -> (v: Vec<(i32, i32)>)
    requires
        i32::MIN < ex < i32::MAX,
        i32::MIN < ey < i32::MAX,
    ensures
        v@ == block_seq(ex, ey),
        forall|x: i32, y: i32| v@.contains((x, y)) <==> around(ex, ey, x, y),
{
    let v = vec![(ex - 1, ey), (ex + 1, ey), (ex, ey - 1), (ex, ey + 1), (ex - 1, ey - 1), (ex + 1, ey - 1), (ex - 1, ey + 1),
        (ex + 1, ey + 1), (ex, ey)];
    assert forall|x: i32, y: i32| around(ex, ey, x, y) implies v@.contains((x, y)) by {
        let i: int = if x == ex - 1 && y == ey { 0 } else if x == ex + 1 && y == ey { 1 } else if x == ex && y == ey - 1 { 2 }
            else if x == ex && y == ey + 1 { 3 } else if x == ex - 1 && y == ey - 1 { 4 } else if x == ex + 1 && y == ey - 1 { 5 }
            else if x == ex - 1 && y == ey + 1 { 6 } else if x == ex + 1 && y == ey + 1 { 7 } else { 8 };
        assert(v@[i] == (x, y));
    }
    assert(v@ =~= block_seq(ex, ey));
    v
}

/// A tile of the level that loot can land on.
pub open spec fn landing_ok(level: Level, p: (i32, i32)) -> bool {
    level.spec_walkable(p.0 as int, p.1 as int) && 0 <= p.0 < level.width && 0 <= p.1 < level.height
}

/// The tiles taken from `order`, in order: each that loot can land on and is not taken yet, while
/// fewer than `count` are taken.
pub open spec fn gather(order: Seq<(i32, i32)>, level: Level, count: int) -> Seq<(i32, i32)>
    decreases order.len(),
{
    if order.len() == 0 {
        Seq::empty()
    } else {
        let prev = gather(order.drop_last(), level, count);
        let p = order.last();
        if prev.len() < count && landing_ok(level, p) && !prev.contains(p) { prev.push(p) } else { prev }
    }
}

proof fn lemma_gather_full(order: Seq<(i32, i32)>, level: Level, count: int, i: int)
    requires
        0 <= i <= order.len(),
        gather(order.take(i), level, count).len() >= count,
    ensures
        gather(order, level, count) == gather(order.take(i), level, count),
    decreases order.len() - i,
{
    if i < order.len() {
        assert(order.take(i + 1).drop_last() =~= order.take(i));
        lemma_gather_full(order, level, count, i + 1);
    } else {
        assert(order.take(i) =~= order);
    }
}

/// The tiles loot lands on when the block's tiles come in `order`: the first `count` distinct
/// ones it can land on.
pub fn gather_tiles(order: &Vec<(i32, i32)>, level: &Level, count: usize) -> (tiles: Vec<(i32, i32)>)
    requires
        level.wf(),
    ensures
        tiles@ == gather(order@, *level, count as int),
{
    let mut tiles: Vec<(i32, i32)> = Vec::new();
    let mut i: usize = 0;
    while i < order.len() && tiles.len() < count
        invariant
            level.wf(),
            i <= order@.len(),
            tiles@ == gather(order@.take(i as int), *level, count as int),
        decreases order@.len() - i,
    {
        let (cx, cy) = order[i];
        let mut present = false;
        let mut j: usize = 0;
        while j < tiles.len()
            invariant
                j <= tiles@.len(),
                present == exists|k: int| 0 <= k < j && tiles@[k] == (cx, cy),
            decreases tiles@.len() - j,
        {
            if tiles[j].0 == cx && tiles[j].1 == cy {
                present = true;
            }
            j = j + 1;
        }
        assert(present == tiles@.contains((cx, cy)));
        proof {
            assert(order@.take(i + 1).drop_last() =~= order@.take(i as int));
        }
        if level.walkable(cx, cy) && cx >= 0 && cy >= 0 && (cx as usize) < level.width && (cy as usize) < level.height && !present {
            tiles.push((cx, cy));
        }
        i = i + 1;
    }
    proof {
        if i < order@.len() {
            lemma_gather_full(order@, *level, count as int, i as int);
        } else {
            assert(order@.take(i as int) =~= order@);
        }
    }
    tiles
}

/// What `gather` takes: tiles of `order` loot can land on, distinct, at most `count`, and every
/// such tile of `order` when fewer.
proof fn lemma_gather_facts(order: Seq<(i32, i32)>, level: Level, count: int)
    requires
        count >= 0,
    ensures
        gather(order, level, count).len() <= count,
        forall|k: int| 0 <= k < gather(order, level, count).len() ==> order.contains(#[trigger] gather(order, level, count)[k])
            && landing_ok(level, gather(order, level, count)[k]),
        forall|k: int, j: int| 0 <= k < j < gather(order, level, count).len() ==> gather(order, level, count)[k] != gather(order, level, count)[j],
        gather(order, level, count).len() < count ==> forall|k: int| 0 <= k < order.len() && landing_ok(level, #[trigger] order[k])
            ==> gather(order, level, count).contains(order[k]),
    decreases order.len(),
{
    if order.len() > 0 {
        let init = order.drop_last();
        lemma_gather_facts(init, level, count);
        let prev = gather(init, level, count);
        let g = gather(order, level, count);
        assert forall|k: int| 0 <= k < g.len() implies order.contains(#[trigger] g[k]) && landing_ok(level, g[k]) by {
            if k < prev.len() {
                assert(g[k] == prev[k]);
                let m = choose|m: int| 0 <= m < init.len() && init[m] == prev[k];
                assert(order[m] == prev[k]);
            } else {
                assert(order[order.len() - 1] == order.last());
            }
        }
        assert forall|k: int, j: int| 0 <= k < j < g.len() implies g[k] != g[j] by {
            if j >= prev.len() {
                assert(g[k] == prev[k]);
                assert(prev.contains(prev[k]));
            } else {
                assert(g[k] == prev[k] && g[j] == prev[j]);
            }
        }
        if g.len() < count {
            assert forall|k: int| 0 <= k < order.len() && landing_ok(level, #[trigger] order[k]) implies g.contains(order[k]) by {
                if k < init.len() {
                    assert(init[k] == order[k]);
                    assert(prev.len() <= g.len());
                    let m = choose|m: int| 0 <= m < prev.len() && prev[m] == order[k];
                    assert(g[m] == prev[m]);
                } else {
                    if prev.contains(order[k]) {
                        let m = choose|m: int| 0 <= m < prev.len() && prev[m] == order[k];
                        assert(g[m] == prev[m]);
                    } else {
                        assert(g[g.len() - 1] == order[k]);
                    }
                }
            }
        }
    }
}

/// Where dropped loot lands: up to `count` distinct walkable tiles of the 3x3 block around
/// `(ex, ey)`, taken in a random order; fewer only when the block has no more walkable tiles.
pub fn scatter_loot_tiles(ex: i32, ey: i32, level: &Level, count: usize) -> (tiles: Vec<(i32, i32)>)
    requires
        level.wf(),
        i32::MIN < ex < i32::MAX,
        i32::MIN < ey < i32::MAX,
    ensures
        tiles@.len() <= count,
        forall|i: int| 0 <= i < tiles@.len() ==> around(ex, ey, (#[trigger] tiles@[i]).0, tiles@[i].1)
            && level.spec_walkable(tiles@[i].0 as int, tiles@[i].1 as int),
        forall|i: int, j: int| 0 <= i < j < tiles@.len() ==> tiles@[i] != tiles@[j],
        tiles@.len() < count ==> forall|x: i32, y: i32| around(ex, ey, x, y) && level.spec_walkable(x as int, y as int)
            ==> #[trigger] tiles@.contains((x, y)),
        exists|order: Seq<(i32, i32)>| order.to_multiset() == block_seq(ex, ey).to_multiset()
            && tiles@ == #[trigger] gather(order, *level, count as int),
{
    let mut candidates = block_tiles(ex, ey);
    let ghost before = candidates@;
    let mut rng = thread_rng();
    thread_shuffle_positions(&mut rng, &mut candidates);
    proof {
        assert forall|x: i32, y: i32| candidates@.contains((x, y)) <==> around(ex, ey, x, y) by {
            vstd::seq_lib::to_multiset_contains(candidates@, (x, y));
            vstd::seq_lib::to_multiset_contains(before, (x, y));
        }
    }
    let tiles = gather_tiles(&candidates, level, count);
    proof {
        lemma_gather_facts(candidates@, *level, count as int);
        let g = tiles@;
        assert forall|i: int| 0 <= i < g.len() implies around(ex, ey, (#[trigger] g[i]).0, g[i].1)
            && level.spec_walkable(g[i].0 as int, g[i].1 as int) by {
            assert(candidates@.contains(g[i]));
        }
        if g.len() < count {
            assert forall|x: i32, y: i32| around(ex, ey, x, y) && level.spec_walkable(x as int, y as int)
                implies #[trigger] g.contains((x, y)) by {
                assert(candidates@.contains((x, y)));
                let k = choose|k: int| 0 <= k < candidates@.len() && candidates@[k] == (x, y);
                assert(landing_ok(*level, candidates@[k]));
            }
        }
    }
    tiles
}

} // verus!
