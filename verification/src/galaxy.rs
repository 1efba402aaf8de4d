//! Locations of the galaxy: variable-size stacks of levels.
use vstd::prelude::*;
use crate::level::{Level, LocationType, Tile};

verus! {

/// One zone of the galaxy: `depth` levels of `width` by `height` tiles.
pub struct Location {
    pub name: &'static str,
    pub width: usize,
    pub height: usize,
    pub depth: usize,
    pub levels: Vec<Level>,
    pub location_type: LocationType,
}

/// `l` is a well-formed `w` by `h` level.
pub open spec fn level_fits(l: Level, w: usize, h: usize) -> bool {
    l.wf() && l.width == w && l.height == h
}

/// `l` is a well-formed `w` by `h` level with every tile `fill`.
pub open spec fn level_filled(l: Level, w: usize, h: usize, fill: Tile) -> bool {
    level_fits(l, w, h) && forall|x: int, y: int| l.in_bounds(x, y) ==> #[trigger] l.tile_at(x, y) == fill
}

impl Location {
    /// Every level has the location's dimensions and there is one level per depth.
    pub open spec fn wf(&self) -> bool {
        &&& self.levels@.len() == self.depth
        &&& forall|z: int| 0 <= z < self.depth ==> level_fits(#[trigger] self.levels@[z], self.width, self.height)
    }

    /// A location of `depth` levels, each `width` by `height` and filled with `fill`.
    pub fn new(name: &'static str, width: usize, height: usize, depth: usize, location_type: LocationType, fill: Tile) -> (loc: Self)
        ensures
            loc.wf(),
            loc.name == name,
            loc.width == width,
            loc.height == height,
            loc.depth == depth,
            loc.location_type == location_type,
            forall|z: int| 0 <= z < depth ==> level_filled(#[trigger] loc.levels@[z], width, height, fill),
    {
        let mut levels: Vec<Level> = Vec::new();
        let mut z: usize = 0;
        while z < depth
            invariant
                z <= depth,
                levels@.len() == z,
                forall|k: int| 0 <= k < z ==> level_filled(#[trigger] levels@[k], width, height, fill),
            decreases depth - z,
        {
            levels.push(Level::new(width, height, fill));
            z = z + 1;
        }
        Location { name, width, height, depth, levels, location_type }
    }

    /// The level at depth `z`.
    pub fn level(&self, z: usize) -> (l: &Level)
        requires
            z < self.levels@.len(),
        ensures
            *l == self.levels@[z as int],
    {
        &self.levels[z]
    }

    /// The level at depth `z`, for writing.
    pub fn level_mut(&mut self, z: usize) -> (l: &mut Level)
        requires
            z < old(self).levels@.len(),
        ensures
            *l == old(self).levels@[z as int],
            final(self).levels@ == old(self).levels@.update(z as int, *final(l)),
            final(self).name == old(self).name,
            final(self).width == old(self).width,
            final(self).height == old(self).height,
            final(self).depth == old(self).depth,
            final(self).location_type == old(self).location_type,
    {
        &mut self.levels[z]
    }
}

/// Where a location sits in the galaxy.
pub type LocationId = (i32, i32, i32);

/// The location stored under `id` in `entries`, the newest entry for it counting.
pub open spec fn lookup(entries: Seq<(LocationId, Location)>, id: LocationId) -> Option<Location>
    decreases entries.len(),
{
    if entries.len() == 0 {
        None
    } else if entries.last().0 == id {
        Some(entries.last().1)
    } else {
        lookup(entries.drop_last(), id)
    }
}

/// Every location of the galaxy by its id, each id held once.
pub struct Galaxy {
    pub locations: Vec<(LocationId, Location)>,
}

proof fn lemma_lookup_at(entries: Seq<(LocationId, Location)>, i: int)
    requires
        0 <= i < entries.len(),
        forall|j: int| 0 <= j < entries.len() && j != i ==> (#[trigger] entries[j]).0 != entries[i].0,
    ensures
        lookup(entries, entries[i].0) == Some(entries[i].1),
    decreases entries.len(),
{
    if i < entries.len() - 1 {
        let t = entries.drop_last();
        assert forall|j: int| 0 <= j < t.len() && j != i implies (#[trigger] t[j]).0 != t[i].0 by {
            assert(t[j] == entries[j]);
        }
        lemma_lookup_at(t, i);
    }
}

proof fn lemma_lookup_none(entries: Seq<(LocationId, Location)>, id: LocationId)
    requires
        forall|j: int| 0 <= j < entries.len() ==> (#[trigger] entries[j]).0 != id,
    ensures
        lookup(entries, id) is None,
    decreases entries.len(),
{
    if entries.len() > 0 {
        let t = entries.drop_last();
        assert forall|j: int| 0 <= j < t.len() implies (#[trigger] t[j]).0 != id by {
            assert(t[j] == entries[j]);
        }
        lemma_lookup_none(t, id);
    }
}

/// Looking up another id is not affected by replacing entry `i` or adding one for `id`.
proof fn lemma_lookup_other(entries: Seq<(LocationId, Location)>, i: int, e: (LocationId, Location), other: LocationId)
    requires
        0 <= i <= entries.len(),
        other != e.0,
        i < entries.len() ==> entries[i].0 == e.0,
    ensures
        lookup(if i < entries.len() { entries.update(i, e) } else { entries.push(e) }, other) == lookup(entries, other),
    decreases entries.len(),
{
    let n = if i < entries.len() { entries.update(i, e) } else { entries.push(e) };
    if i == entries.len() {
        assert(n.drop_last() =~= entries);
    } else if i == entries.len() - 1 {
        assert(n.drop_last() =~= entries.drop_last());
    } else {
        assert(n.drop_last() =~= entries.drop_last().update(i, e));
        lemma_lookup_other(entries.drop_last(), i, e, other);
    }
}

impl Galaxy {
    /// No id is stored twice.
    pub open spec fn wf(&self) -> bool {
        forall|i: int, j: int| 0 <= i < j < self.locations@.len() ==> self.locations@[i].0 != self.locations@[j].0
    }

    pub open spec fn spec_get(&self, id: LocationId) -> Option<Location> {
        lookup(self.locations@, id)
    }

    /// An empty galaxy.
    pub fn new() -> (g: Self)
        ensures
            g.wf(),
            forall|id: LocationId| g.spec_get(id) is None,
    {
        Galaxy { locations: Vec::new() }
    }

    fn find(&self, id: LocationId) -> (r: Option<usize>)
        requires
            self.wf(),
        ensures
            r matches Some(i) ==> i < self.locations@.len() && self.locations@[i as int].0 == id,
            r is None ==> forall|j: int| 0 <= j < self.locations@.len() ==> (#[trigger] self.locations@[j]).0 != id,
    {
        let mut i: usize = 0;
        while i < self.locations.len()
            invariant
                i <= self.locations@.len(),
                forall|j: int| 0 <= j < i ==> (#[trigger] self.locations@[j]).0 != id,
            decreases self.locations@.len() - i,
        {
            let k = self.locations[i].0;
            if k.0 == id.0 && k.1 == id.1 && k.2 == id.2 {
                return Some(i);
            }
            i = i + 1;
        }
        None
    }

    /// The location stored under `id`.
    pub fn get(&self, id: LocationId) -> (r: Option<&Location>)
        requires
            self.wf(),
        ensures
            r matches Some(l) ==> self.spec_get(id) == Some(*l),
            r is None ==> self.spec_get(id) is None,
    {
        match self.find(id) {
            Some(i) => {
                proof {
                    lemma_lookup_at(self.locations@, i as int);
                }
                Some(&self.locations[i].1)
            },
            None => {
                proof {
                    lemma_lookup_none(self.locations@, id);
                }
                None
            },
        }
    }

    /// Stores `location` under `id`, replacing what was there.
    pub fn insert(&mut self, id: LocationId, location: Location)
        requires
            old(self).wf(),
        ensures
            final(self).wf(),
            final(self).spec_get(id) == Some(location),
            forall|other: LocationId| other != id ==> #[trigger] final(self).spec_get(other) == old(self).spec_get(other),
    {
        let ghost before = self.locations@;
        match self.find(id) {
            Some(i) => {
                self.locations.set(i, (id, location));
                proof {
                    assert forall|other: LocationId| other != id implies #[trigger] lookup(self.locations@, other) == lookup(before, other) by {
                        lemma_lookup_other(before, i as int, (id, location), other);
                    }
                    assert forall|j: int| 0 <= j < self.locations@.len() && j != i implies (#[trigger] self.locations@[j]).0 != self.locations@[i as int].0 by {
                        assert(self.locations@[j] == before[j]);
                    }
                    lemma_lookup_at(self.locations@, i as int);
                }
            },
            None => {
                self.locations.push((id, location));
                proof {
                    assert forall|other: LocationId| other != id implies #[trigger] lookup(self.locations@, other) == lookup(before, other) by {
                        lemma_lookup_other(before, before.len() as int, (id, location), other);
                    }
                    assert(self.locations@.drop_last() =~= before);
                }
            },
        }
    }

    /// The location stored under `id`, for writing; the rest of the galaxy stays as it was.
    pub fn get_mut(&mut self, id: LocationId) -> (r: Option<&mut Location>)
        requires
            old(self).wf(),
        ensures
            final(self).wf(),
            r is None ==> old(self).spec_get(id) is None && final(self).locations@ == old(self).locations@,
            r matches Some(l) ==> {
                &&& old(self).spec_get(id) == Some(*l)
                &&& exists|i: int| 0 <= i < old(self).locations@.len() && (#[trigger] old(self).locations@[i]).0 == id
                    && final(self).locations@ == old(self).locations@.update(i, (id, *final(l)))
            },
    {
        match self.find(id) {
            Some(i) => {
                proof {
                    lemma_lookup_at(self.locations@, i as int);
                }
                Some(&mut self.locations[i].1)
            },
            None => {
                proof {
                    lemma_lookup_none(self.locations@, id);
                }
                None
            },
        }
    }
}

/// Where the player's ship is kept.
pub open spec fn ship_id() -> LocationId {
    (-1i32, -1i32, -1i32)
}

/// The entries of `entries` but the ship's, in order.
pub open spec fn known_entries(entries: Seq<(LocationId, Location)>) -> Seq<(LocationId, Location)>
    decreases entries.len(),
{
    if entries.len() == 0 {
        Seq::empty()
    } else {
        let prev = known_entries(entries.drop_last());
        if entries.last().0 == ship_id() { prev } else { prev.push(entries.last()) }
    }
}

/// The known locations are the stored entries whose id is not the ship's `(-1, -1, -1)`, each
/// kept in the order stored: no other entry is left out, and nothing else is added.
pub proof fn law_known_leaves_out_only_the_ship(entries: Seq<(LocationId, Location)>)
    ensures
        known_entries(entries) == entries.filter(|e: (LocationId, Location)| e.0 != (-1i32, -1i32, -1i32)),
        forall|i: int| 0 <= i < entries.len() && entries[i].0 != (-1i32, -1i32, -1i32)
            ==> known_entries(entries).contains(#[trigger] entries[i]),
        forall|i: int| 0 <= i < known_entries(entries).len() ==> (#[trigger] known_entries(entries)[i]).0 != (-1i32, -1i32, -1i32)
            && entries.contains(known_entries(entries)[i]),
    decreases entries.len(),
{
    reveal(Seq::filter);
    let pred = |e: (LocationId, Location)| e.0 != (-1i32, -1i32, -1i32);
    if entries.len() > 0 {
        law_known_leaves_out_only_the_ship(entries.drop_last());
        assert(known_entries(entries) == entries.filter(pred));
    }
    assert forall|i: int| 0 <= i < entries.len() && entries[i].0 != (-1i32, -1i32, -1i32)
        implies known_entries(entries).contains(#[trigger] entries[i]) by {
        entries.lemma_filter_contains(pred, i);
    }
    assert forall|i: int| 0 <= i < known_entries(entries).len() implies (#[trigger] known_entries(entries)[i]).0 != (-1i32, -1i32, -1i32)
        && entries.contains(known_entries(entries)[i]) by {
        entries.lemma_filter_pred(pred, i);
        #[allow(deprecated)]
        entries.filter_lemma(pred);
    }
}

/// In a galaxy, a location other than the ship's is among the known ones, under its id, exactly
/// when it is what the galaxy holds under that id.
pub proof fn law_known_are_the_stored(g: Galaxy, id: LocationId, loc: Location)
    requires
        g.wf(),
        id != (-1i32, -1i32, -1i32),
    ensures
        known_entries(g.locations@).contains((id, loc)) <==> g.spec_get(id) == Some(loc),
{
    let e = g.locations@;
    law_known_leaves_out_only_the_ship(e);
    if known_entries(e).contains((id, loc)) {
        let k = choose|k: int| 0 <= k < known_entries(e).len() && known_entries(e)[k] == (id, loc);
        assert(e.contains(known_entries(e)[k]));
        let i = choose|i: int| 0 <= i < e.len() && e[i] == (id, loc);
        lemma_lookup_at(e, i);
    }
    if g.spec_get(id) == Some(loc) {
        if forall|j: int| 0 <= j < e.len() ==> (#[trigger] e[j]).0 != id {
            lemma_lookup_none(e, id);
        } else {
            let i = choose|i: int| 0 <= i < e.len() && (#[trigger] e[i]).0 == id;
            lemma_lookup_at(e, i);
            assert(e[i] == (id, loc));
            assert(known_entries(e).contains(e[i]));
        }
    }
}

/// Every location but the ship, with its id, in the order they were stored.
pub fn known_locations(galaxy: &Galaxy) -> (r: Vec<(LocationId, &Location)>)
    ensures
        r@.len() == known_entries(galaxy.locations@).len(),
        forall|i: int| 0 <= i < r@.len() ==> ((#[trigger] r@[i]).0, *r@[i].1) == known_entries(galaxy.locations@)[i],
{
    let mut r: Vec<(LocationId, &Location)> = Vec::new();
    let mut i: usize = 0;
    while i < galaxy.locations.len()
        invariant
            i <= galaxy.locations@.len(),
            r@.len() == known_entries(galaxy.locations@.subrange(0, i as int)).len(),
            forall|k: int| 0 <= k < r@.len() ==> ((#[trigger] r@[k]).0, *r@[k].1) == known_entries(galaxy.locations@.subrange(0, i as int))[k],
        decreases galaxy.locations@.len() - i,
    {
        let entry = &galaxy.locations[i];
        let ghost prev = r@;
        assert(galaxy.locations@.subrange(0, i as int + 1).drop_last() =~= galaxy.locations@.subrange(0, i as int));
        let id = entry.0;
        if !(id.0 == -1 && id.1 == -1 && id.2 == -1) {
            r.push((id, &entry.1));
        }
        i = i + 1;
    }
    assert(galaxy.locations@.subrange(0, galaxy.locations@.len() as int) =~= galaxy.locations@);
    r
}

} // verus!
