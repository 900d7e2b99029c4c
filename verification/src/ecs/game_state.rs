use crate::proto::proto_all::{Entity, State};
use vstd::prelude::*;

verus! {

/// The snapshot kept for the player `id`.
#[derive(Clone, Debug)]
pub struct GameState {
    pub id: u32,
    pub state: State,
}

impl GameState {
    pub fn new(id: u32) -> (gs: Self)
        ensures
            gs.id == id,
            gs.state.last_seq == 0,
            gs.state.entities@ == Seq::<Entity>::empty(),
    {
        GameState { id, state: State { last_seq: 0, entities: Vec::new() } }
    }

    pub fn clear(&mut self)
        ensures
            final(self).id == old(self).id,
            final(self).state.last_seq == old(self).state.last_seq,
            final(self).state.entities@ == Seq::<Entity>::empty(),
    {
        self.state.entities.clear();
    }

    pub fn add_entity(&mut self, entity: Entity)
        ensures
            final(self).id == old(self).id,
            final(self).state.last_seq == old(self).state.last_seq,
            final(self).state.entities@ == old(self).state.entities@.push(entity),
    {
        self.state.entities.push(entity);
    }
}

/// The entities of a snapshot that held `start`, after `add_entity` was
/// called with each entity of `added` in turn.
pub open spec fn after_adding(start: Seq<Entity>, added: Seq<Entity>) -> Seq<Entity>
    decreases added.len(),
{
    if added.len() == 0 {
        start
    } else {
        after_adding(start, added.drop_last()).push(added.last())
    }
}

/// Adding entities one by one keeps them all, duplicates included, in the
/// order they were added, after those already there; from a new snapshot
/// they are exactly the entities added.
pub proof fn lemma_entities_added_in_order(start: Seq<Entity>, added: Seq<Entity>)
    ensures
        after_adding(start, added) == start + added,
        after_adding(Seq::empty(), added) == added,
    decreases added.len(),
{
    if added.len() > 0 {
        lemma_entities_added_in_order(start, added.drop_last());
        assert(start + added =~= (start + added.drop_last()).push(added.last()));
        assert(Seq::<Entity>::empty() + added =~= added);
        assert(Seq::<Entity>::empty() + added.drop_last() =~= added.drop_last());
    } else {
        assert(start + added =~= start);
    }
}

/// The snapshots kept for players other than `id`, in order.
pub open spec fn other_players(states: Seq<GameState>, id: u32) -> Seq<GameState> {
    states.filter(|gs: GameState| gs.id != id)
}

/// Drops the snapshots of player `id`, keeping the others in order.
pub fn retain_other_players(states: &mut Vec<GameState>, id: u32)
    ensures
        final(states)@ == other_players(old(states)@, id),
{
    let ghost orig = states@;
    let mut rest: Vec<GameState> = Vec::new();
    core::mem::swap(states, &mut rest);
    let ghost mut k: int = 0;
    while rest.len() > 0
        invariant
            0 <= k <= orig.len(),
            rest@ == orig.skip(k),
            states@ == other_players(orig.take(k), id),
        decreases rest@.len(),
    {
        let gs = rest.remove(0);
        proof {
            reveal(Seq::filter);
            assert(orig.take(k + 1).drop_last() =~= orig.take(k));
            assert(orig.take(k + 1).last() == gs);
        }
        if gs.id != id {
            states.push(gs);
        }
        proof {
            assert(rest@ =~= orig.skip(k + 1));
            k = k + 1;
        }
    }
    assert(orig.take(k) =~= orig);
}

/// The position of the first snapshot kept for player `id`, if any.
pub fn find_state(states: &Vec<GameState>, id: u32) -> (res: Option<usize>)
    ensures
        match res {
            Some(i) => i < states@.len() && states@[i as int].id == id && forall|j: int|
                0 <= j < i ==> states@[j].id != id,
            None => forall|j: int| 0 <= j < states@.len() ==> states@[j].id != id,
        },
{
    let mut i: usize = 0;
    while i < states.len()
        invariant
            i <= states@.len(),
            forall|j: int| 0 <= j < i ==> states@[j].id != id,
        decreases states@.len() - i,
    {
        if states[i].id == id {
            return Some(i);
        }
        i = i + 1;
    }
    None
}

} // verus!
