//! The replicated value: a positioned, sized, coloured disc with an id.

use crate::store::{EntityStore, is_snapshot_of};
use vstd::prelude::*;

verus! {

/// One drawn entity. Position and radius are IEEE-754 single-precision
/// values held as their bit patterns: the protocol carries them and never
/// computes with them. `color` is a packed `0xRRGGBB` value, opaque here too.
#[derive(Debug, Clone, Copy, PartialEq, Eq, Structural)]
pub struct Entity {
    pub id: usize,
    pub x: u32,
    pub y: u32,
    pub radius: u32,
    pub color: i32,
}

impl Entity {
    pub fn new(id: usize, x: u32, y: u32, radius: u32, color: i32) -> (r: Entity)
        ensures
            r == (Entity { id, x, y, radius, color }),
    {
        Entity { id, x, y, radius, color }
    }
}

/// Creation of a new entity in a store.
pub trait Create {
    fn spawn(x: u32, y: u32, radius: u32, color: i32, entities: &mut EntityStore) -> (r: Option<
        usize,
    >)
        requires
            old(entities).wf(),
        ensures
            final(entities).wf(),
    ;
}

/// Recolouring.
pub trait Paint {
    fn colorize(&mut self, color: i32);
}

/// Removal of an entity from a store.
pub trait Eraser {
    fn erase(&mut self, inside_area: bool, entities: &mut EntityStore) -> (r: Option<(usize, Entity)>)
        requires
            old(entities).wf(),
        ensures
            final(entities).wf(),
    ;

    fn destroy(&mut self, entities: &mut EntityStore) -> (r: Option<(usize, Entity)>)
        requires
            old(entities).wf(),
        ensures
            final(entities).wf(),
    ;
}

impl Create for Entity {
    /// Creates an entity under an id that no entity of the store has (one
    /// past the largest id, or else the smallest free one), inserts it and
    /// returns the id. Returns `None`, and changes nothing, only when every
    /// id is taken.
    fn spawn(x: u32, y: u32, radius: u32, color: i32, entities: &mut EntityStore) -> (r: Option<
        usize,
    >)
        ensures
            match r {
                Some(id) => {
                    &&& !old(entities)@.contains_key(id)
                    &&& final(entities)@ == old(entities)@.insert(
                        id,
                        Entity { id, x, y, radius, color },
                    )
                },
                None => {
                    &&& forall|k: usize| old(entities)@.contains_key(k)
                    &&& final(entities)@ == old(entities)@
                },
            },
    {
        let all = entities.snapshot();
        let mut next: usize = 0;
        let mut max_taken = false;
        let mut i: usize = 0;
        while i < all.len()
            invariant
                i <= all@.len(),
                forall|j: int| 0 <= j < i && all@[j].id != usize::MAX ==> #[trigger] all@[j].id < next,
                max_taken ==> old(entities)@.contains_key(usize::MAX),
                forall|j: int| 0 <= j < i && #[trigger] all@[j].id == usize::MAX ==> max_taken,
                is_snapshot_of(all@, old(entities)@),
                entities@ == old(entities)@,
            decreases all@.len() - i,
        {
            let id = all[i].id;
            if id == usize::MAX {
                max_taken = true;
            } else if id >= next {
                next = id + 1;
            }
            i = i + 1;
        }
        if !max_taken {
            proof {
                if old(entities)@.contains_key(next) {
                    let j = choose|j: int| 0 <= j < all@.len() && all@[j].id == next;
                    assert(all@[j].id < next);
                }
            }
            let new = Entity { id: next, x, y, radius, color };
            entities.insert(new);
            return Some(next);
        }
        let mut k: usize = 0;
        while k < usize::MAX
            invariant
                forall|j: usize| j < k ==> old(entities)@.contains_key(j),
                old(entities)@.contains_key(usize::MAX),
                entities@ == old(entities)@,
                entities.wf(),
            decreases usize::MAX - k,
        {
            if !entities.contains_key(k) {
                let new = Entity { id: k, x, y, radius, color };
                entities.insert(new);
                return Some(k);
            }
            k = k + 1;
        }
        None
    }
}

impl Eraser for Entity {
    /// Removes this entity's id from the store when the entity lies inside
    /// the erasing area; returns the removed entry.
    fn erase(&mut self, inside_area: bool, entities: &mut EntityStore) -> (r: Option<(usize, Entity)>)
        ensures
            *final(self) == *old(self),
            if inside_area && old(entities)@.contains_key(old(self).id) {
                &&& r == Some((old(self).id, old(entities)@[old(self).id]))
                &&& final(entities)@ == old(entities)@.remove(old(self).id)
            } else {
                &&& r is None
                &&& final(entities)@ == old(entities)@
            },
    {
        if inside_area {
            if entities.contains_key(self.id) {
                return entities.remove(self.id);
            }
        }
        None
    }

    /// Removes this entity's id from the store; returns the removed entry.
    fn destroy(&mut self, entities: &mut EntityStore) -> (r: Option<(usize, Entity)>)
        ensures
            *final(self) == *old(self),
            final(entities)@ == old(entities)@.remove(old(self).id),
            r == if old(entities)@.contains_key(old(self).id) {
                Some((old(self).id, old(entities)@[old(self).id]))
            } else {
                None
            },
    {
        entities.remove(self.id)
    }
}

impl Paint for Entity {
    fn colorize(&mut self, color: i32)
        ensures
            *final(self) == (Entity { color, ..*old(self) }),
    {
        self.color = color;
    }
}

} // verus!
