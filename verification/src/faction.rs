//! Allegiance for characters and legacy entity descriptions.
use vstd::prelude::*;

verus! {

#[derive(Clone, Copy, Debug, PartialEq, Eq, Structural)]
pub enum Faction {
    Player,
    Friendly,
    Hostile,
    Neutral,
}

} // verus!
