use vstd::prelude::*;

verus! {

/// The player id carried by an entity.
#[derive(Clone, Debug)]
pub struct IDComp {
    pub id: u32,
}

/// The directions a player holds down.
#[derive(Clone, Debug, Default)]
pub struct InputComp {
    pub up: bool,
    pub down: bool,
    pub left: bool,
    pub right: bool,
}

} // verus!
