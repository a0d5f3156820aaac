//! The entity table: entities keyed by their id, last write wins.

use crate::entity::Entity;
use dashmap::DashMap;
use vstd::prelude::*;

verus! {

/// The sharded concurrent map of the `dashmap` crate, opaque to proofs.
#[verifier::external_type_specification]
#[verifier::external_body]
#[verifier::reject_recursive_types(K)]
#[verifier::reject_recursive_types(V)]
#[verifier::reject_recursive_types(S)]
pub struct ExDashMap<K, V, S>(DashMap<K, V, S>);

/// What a `DashMap` of entities holds, key by key.
pub uninterp spec fn table_contents(m: DashMap<usize, Entity>) -> Map<usize, Entity>;

/// The table with no entry.
pub open spec fn no_entities() -> Map<usize, Entity> {
    Map::empty()
}

/// Relies on `DashMap::new`: a new map is empty.
#[verifier::external_body]
fn table_new() -> (r: DashMap<usize, Entity>)
    ensures
        table_contents(r) == no_entities(),
{
    DashMap::new()
}

/// Relies on `DashMap::insert`: the key maps to the value afterwards, other
/// keys are untouched.
#[verifier::external_body]
fn table_insert(m: &mut DashMap<usize, Entity>, k: usize, v: Entity)
    ensures
        table_contents(*final(m)) == table_contents(*old(m)).insert(k, v),
{
    m.insert(k, v);
}

/// Relies on `DashMap::get`: the value under the key, if there is one.
#[verifier::external_body]
fn table_get(m: &DashMap<usize, Entity>, k: usize) -> (r: Option<Entity>)
    ensures
        r == if table_contents(*m).contains_key(k) {
            Some(table_contents(*m)[k])
        } else {
            None
        },
{
    m.get(&k).map(|e| *e.value())
}

/// Relies on `DashMap::remove`: the key is gone afterwards, and the removed
/// entry is returned.
#[verifier::external_body]
fn table_remove(m: &mut DashMap<usize, Entity>, k: usize) -> (r: Option<(usize, Entity)>)
    ensures
        table_contents(*final(m)) == table_contents(*old(m)).remove(k),
        r == if table_contents(*old(m)).contains_key(k) {
            Some((k, table_contents(*old(m))[k]))
        } else {
            None
        },
{
    m.remove(&k)
}

/// Relies on `DashMap::contains_key`.
#[verifier::external_body]
fn table_contains_key(m: &DashMap<usize, Entity>, k: usize) -> (r: bool)
    ensures
        r == table_contents(*m).contains_key(k),
{
    m.contains_key(&k)
}

/// Relies on `DashMap::len`: the number of entries.
#[verifier::external_body]
fn table_len(m: &DashMap<usize, Entity>) -> (r: usize)
    ensures
        r == table_contents(*m).len(),
{
    m.len()
}

/// Relies on `DashMap::is_empty`.
#[verifier::external_body]
fn table_is_empty(m: &DashMap<usize, Entity>) -> (r: bool)
    ensures
        r == (table_contents(*m).len() == 0),
{
    m.is_empty()
}

/// Relies on `DashMap::clear`: no entry is left.
#[verifier::external_body]
fn table_clear(m: &mut DashMap<usize, Entity>)
    ensures
        table_contents(*final(m)) == no_entities(),
{
    m.clear();
}

/// Relies on `DashMap::iter`: it visits each entry once, in an order that
/// depends on the hasher.
#[verifier::external_body]
fn table_entries(m: &DashMap<usize, Entity>) -> (r: Vec<(usize, Entity)>)
    ensures
        forall|i: int|
            0 <= i < r@.len() ==> table_contents(*m).contains_key(#[trigger] r@[i].0)
                && table_contents(*m)[r@[i].0] == r@[i].1,
        forall|i: int, j: int| 0 <= i < j < r@.len() ==> r@[i].0 != r@[j].0,
        forall|k: usize|
            table_contents(*m).contains_key(k) ==> exists|i: int| 0 <= i < r@.len() && r@[i].0 == k,
{
    m.iter().map(|e| (*e.key(), *e.value())).collect()
}

/// Every entry sits under its own entity's id.
pub open spec fn keyed_by_id(m: Map<usize, Entity>) -> bool {
    forall|k: usize| m.contains_key(k) ==> (#[trigger] m[k]).id == k
}

/// `s` lists the entities of `m`, each once, in some order.
pub open spec fn is_snapshot_of(s: Seq<Entity>, m: Map<usize, Entity>) -> bool {
    &&& forall|i: int| 0 <= i < s.len() ==> m.contains_key(#[trigger] s[i].id) && m[s[i].id] == s[i]
    &&& forall|i: int, j: int| 0 <= i < j < s.len() ==> s[i].id != s[j].id
    &&& forall|k: usize| m.contains_key(k) ==> exists|i: int| 0 <= i < s.len() && s[i].id == k
}

/// The table obtained by inserting the entities of `s` in order into an
/// empty one: a later entity replaces an earlier one with the same id.
pub open spec fn entities_map(s: Seq<Entity>) -> Map<usize, Entity>
    decreases s.len(),
{
    if s.len() == 0 {
        Map::empty()
    } else {
        entities_map(s.drop_last()).insert(s.last().id, s.last())
    }
}

/// The entity table shared by the protocol and the drawing side.
pub struct EntityStore {
    table: DashMap<usize, Entity>,
}

impl View for EntityStore {
    type V = Map<usize, Entity>;

    closed spec fn view(&self) -> Map<usize, Entity> {
        table_contents(self.table)
    }
}

impl EntityStore {
    pub open spec fn wf(&self) -> bool {
        self@.dom().finite() && keyed_by_id(self@)
    }

    pub fn new() -> (r: Self)
        ensures
            r.wf(),
            r@ == Map::<usize, Entity>::empty(),
    {
        EntityStore { table: table_new() }
    }

    /// Inserts `e` under its id, replacing any entity with that id.
    pub fn insert(&mut self, e: Entity)
        requires
            old(self).wf(),
        ensures
            final(self).wf(),
            final(self)@ == old(self)@.insert(e.id, e),
    {
        table_insert(&mut self.table, e.id, e);
    }

    pub fn get(&self, id: usize) -> (r: Option<Entity>)
        ensures
            r == if self@.contains_key(id) {
                Some(self@[id])
            } else {
                None
            },
    {
        table_get(&self.table, id)
    }

    /// Removes the entity with this id; returns the removed entry.
    pub fn remove(&mut self, id: usize) -> (r: Option<(usize, Entity)>)
        requires
            old(self).wf(),
        ensures
            final(self).wf(),
            final(self)@ == old(self)@.remove(id),
            r == if old(self)@.contains_key(id) {
                Some((id, old(self)@[id]))
            } else {
                None
            },
    {
        table_remove(&mut self.table, id)
    }

    pub fn contains_key(&self, id: usize) -> (r: bool)
        ensures
            r == self@.contains_key(id),
    {
        table_contains_key(&self.table, id)
    }

    pub fn len(&self) -> (r: usize)
        ensures
            r == self@.len(),
    {
        table_len(&self.table)
    }

    pub fn is_empty(&self) -> (r: bool)
        ensures
            r == (self@.len() == 0),
    {
        table_is_empty(&self.table)
    }

    pub fn clear(&mut self)
        ensures
            final(self).wf(),
            final(self)@ == Map::<usize, Entity>::empty(),
    {
        table_clear(&mut self.table);
    }

    /// Every entity of the store, each once, in no particular order.
    pub fn snapshot(&self) -> (r: Vec<Entity>)
        requires
            self.wf(),
        ensures
            is_snapshot_of(r@, self@),
            r@.len() == self@.len(),
    {
        let entries = table_entries(&self.table);
        let mut out: Vec<Entity> = Vec::new();
        let mut i: usize = 0;
        while i < entries.len()
            invariant
                i <= entries@.len(),
                out@.len() == i,
                self.wf(),
                forall|j: int|
                    0 <= j < entries@.len() ==> self@.contains_key(#[trigger] entries@[j].0)
                        && self@[entries@[j].0] == entries@[j].1,
                forall|a: int, b: int| 0 <= a < b < entries@.len() ==> entries@[a].0 != entries@[b].0,
                forall|j: int| 0 <= j < i ==> #[trigger] out@[j] == entries@[j].1,
            decreases entries@.len() - i,
        {
            out.push(entries[i].1);
            i = i + 1;
        }
        proof {
            assert forall|j: int| 0 <= j < out@.len() implies out@[j].id == entries@[j].0 by {
                assert(self@.contains_key(entries@[j].0));
            }
            assert forall|k: usize| self@.contains_key(k) implies exists|j: int|
                0 <= j < out@.len() && out@[j].id == k by {
                let j = choose|j: int| 0 <= j < entries@.len() && entries@[j].0 == k;
                assert(out@[j].id == entries@[j].0);
            }
            lemma_snapshot_len(out@, self@);
        }
        out
    }

    /// Replaces the whole content by the entities of `s`, inserted in order.
    pub fn replace_all(&mut self, s: &Vec<Entity>)
        ensures
            final(self).wf(),
            final(self)@ == entities_map(s@),
    {
        self.clear();
        let mut i: usize = 0;
        while i < s.len()
            invariant
                i <= s@.len(),
                self.wf(),
                self@ == entities_map(s@.take(i as int)),
            decreases s@.len() - i,
        {
            assert(s@.take(i as int + 1).drop_last() =~= s@.take(i as int));
            self.insert(s[i]);
            i = i + 1;
        }
        assert(s@.take(s@.len() as int) =~= s@);
    }
}

/// A snapshot has as many entities as the table has entries.
pub proof fn lemma_snapshot_len(s: Seq<Entity>, m: Map<usize, Entity>)
    requires
        is_snapshot_of(s, m),
        m.dom().finite(),
    ensures
        s.len() == m.len(),
{
    let ids = s.map_values(|e: Entity| e.id);
    assert(ids.no_duplicates()) by {
        assert forall|i: int, j: int| 0 <= i < ids.len() && 0 <= j < ids.len() && i != j implies ids[i]
            != ids[j] by {
            if i < j {
                assert(s[i].id != s[j].id);
            } else {
                assert(s[j].id != s[i].id);
            }
        }
    }
    ids.unique_seq_to_set();
    assert forall|k: usize| ids.to_set().contains(k) == m.dom().contains(k) by {
        if ids.to_set().contains(k) {
            let i = choose|i: int| 0 <= i < ids.len() && ids[i] == k;
            assert(m.contains_key(s[i].id));
        }
        if m.dom().contains(k) {
            let i = choose|i: int| 0 <= i < s.len() && s[i].id == k;
            assert(ids[i] == k);
        }
    }
    assert(ids.to_set() =~= m.dom());
}

/// A full snapshot replaces the table: afterwards it holds exactly the ids
/// listed, whatever it held before, and, when those ids are distinct, exactly
/// the entities listed.
pub proof fn lemma_snapshot_replace(s: Seq<Entity>)
    ensures
        entities_map(s).dom() == Set::new(|k: usize| exists|i: int| 0 <= i < s.len() && s[i].id == k),
        keyed_by_id(entities_map(s)),
        (forall|i: int, j: int| 0 <= i < j < s.len() ==> s[i].id != s[j].id) ==> is_snapshot_of(
            s,
            entities_map(s),
        ),
    decreases s.len(),
{
    if s.len() > 0 {
        let init = s.drop_last();
        lemma_snapshot_replace(init);
        assert forall|k: usize| #[trigger] entities_map(s).dom().contains(k) == (exists|i: int|
            0 <= i < s.len() && s[i].id == k) by {
            if entities_map(init).dom().contains(k) {
                let i = choose|i: int| 0 <= i < init.len() && init[i].id == k;
                assert(s[i].id == k);
            }
            if exists|i: int| 0 <= i < s.len() && s[i].id == k {
                let i = choose|i: int| 0 <= i < s.len() && s[i].id == k;
                if i < s.len() - 1 {
                    assert(init[i].id == k);
                }
            }
        }
        assert(entities_map(s).dom() =~= Set::new(
            |k: usize| exists|i: int| 0 <= i < s.len() && s[i].id == k,
        ));
        if forall|i: int, j: int| 0 <= i < j < s.len() ==> s[i].id != s[j].id {
            assert forall|i: int| 0 <= i < s.len() implies entities_map(s).contains_key(
                #[trigger] s[i].id,
            ) && entities_map(s)[s[i].id] == s[i] by {
                if i < s.len() - 1 {
                    assert(init[i] == s[i]);
                    assert(s[i].id != s.last().id);
                }
            }
        }
    } else {
        assert(entities_map(s).dom() =~= Set::new(
            |k: usize| exists|i: int| 0 <= i < s.len() && s[i].id == k,
        ));
    }
}

} // verus!
