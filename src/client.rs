//! The connecting side: an initial snapshot request, updates applied to the
//! local table, and the local entities that have not yet been sent.
//!
//! The caller performs the I/O: it hands over the bytes read, writes what
//! the state asks for, and reports which writes went through.

use crate::codec::{MessageHandler, drain, payloads_view};
use crate::entity::Entity;
use crate::message::Message;
use crate::store::{EntityStore, entities_map, is_snapshot_of, lemma_snapshot_replace};
use std::collections::HashSet;
use vstd::prelude::*;

verus! {

broadcast use vstd::std_specs::hash::group_hash_axioms;

/// The table after a received message: an entity is upserted by id, a
/// snapshot replaces everything, a request changes nothing.
pub open spec fn apply_to(m: Map<usize, Entity>, msg: Message) -> Map<usize, Entity> {
    match msg {
        Message::NewEntity(e) => m.insert(e.id, e),
        Message::AllEntities(v) => entities_map(v@),
        Message::RequestAllEntities => m,
    }
}

/// The entities still to be sent: those whose id has not been sent.
pub open spec fn pending(m: Map<usize, Entity>, sent: Set<usize>) -> Map<usize, Entity> {
    m.remove_keys(sent)
}

/// Between two states, an id that was sent and was in the table in both
/// is still marked as sent.
pub open spec fn keeps_sent(a: ClientState, b: ClientState) -> bool {
    forall|id: usize|
        a.sent_ids().contains(id) && a.store().contains_key(id) && b.store().contains_key(id)
            ==> #[trigger] b.sent_ids().contains(id)
}

pub struct ClientState {
    /// The local entity table, shared with the drawing side.
    pub entities: EntityStore,
    handler: MessageHandler,
    request_initial: bool,
    sent: HashSet<usize>,
}

impl ClientState {
    /// The local entity table.
    pub closed spec fn store(&self) -> Map<usize, Entity> {
        self.entities@
    }

    pub closed spec fn stream(&self) -> Seq<u8> {
        self.handler.stream()
    }

    /// Whether the initial snapshot request is still owed.
    pub closed spec fn requesting(&self) -> bool {
        self.request_initial
    }

    /// The ids already sent to the server.
    pub closed spec fn sent_ids(&self) -> Set<usize> {
        self.sent@
    }

    pub closed spec fn wf(&self) -> bool {
        self.entities.wf() && self.handler.wf()
    }

    pub fn new() -> (r: Self)
        ensures
            r.wf(),
            r.store() == Map::<usize, Entity>::empty(),
            r.stream() == Seq::<u8>::empty(),
            r.requesting(),
            r.sent_ids() == Set::<usize>::empty(),
    {
        ClientState {
            entities: EntityStore::new(),
            handler: MessageHandler::new(),
            request_initial: true,
            sent: HashSet::new(),
        }
    }

    /// Inserts an entity made locally, or one coming back from the outbound
    /// duty. What has been sent stays as it is.
    pub fn insert_local(&mut self, e: Entity)
        requires
            old(self).wf(),
        ensures
            final(self).wf(),
            final(self).store() == old(self).store().insert(e.id, e),
            final(self).sent_ids() == old(self).sent_ids(),
            final(self).stream() == old(self).stream(),
            final(self).requesting() == old(self).requesting(),
            keeps_sent(*old(self), *final(self)),
    {
        self.entities.insert(e);
    }

    /// Bytes arrived from the server: the initial request is no longer
    /// owed, and the payloads now complete are returned in stream order.
    pub fn on_bytes(&mut self, data: &[u8]) -> (frames: Vec<Vec<u8>>)
        requires
            old(self).wf(),
        ensures
            final(self).wf(),
            !final(self).requesting(),
            (payloads_view(frames@), final(self).stream()) == drain(old(self).stream() + data@),
            final(self).store() == old(self).store(),
            final(self).sent_ids() == old(self).sent_ids(),
            keeps_sent(*old(self), *final(self)),
    {
        self.request_initial = false;
        self.handler.receive(data)
    }

    /// A read found nothing: the snapshot request to send, while it is
    /// still owed.
    pub fn on_would_block(&self) -> (r: Option<Message>)
        ensures
            r == if self.requesting() {
                Some(Message::RequestAllEntities)
            } else {
                None
            },
    {
        if self.request_initial {
            Some(Message::RequestAllEntities)
        } else {
            None
        }
    }

    /// The snapshot request went out: it is not sent again.
    pub fn request_sent(&mut self)
        requires
            old(self).wf(),
        ensures
            final(self).wf(),
            !final(self).requesting(),
            final(self).store() == old(self).store(),
            final(self).stream() == old(self).stream(),
            final(self).sent_ids() == old(self).sent_ids(),
            keeps_sent(*old(self), *final(self)),
    {
        self.request_initial = false;
    }

    /// Applies a message decoded from the server; returns the reply to send,
    /// which is the local snapshot when the server asked for it.
    pub fn apply_message(&mut self, message: Message) -> (reply: Option<Message>)
        requires
            old(self).wf(),
        ensures
            final(self).wf(),
            final(self).store() == apply_to(old(self).store(), message),
            final(self).stream() == old(self).stream(),
            final(self).requesting() == old(self).requesting(),
            final(self).sent_ids() == old(self).sent_ids(),
            match message {
                Message::RequestAllEntities => reply matches Some(Message::AllEntities(v))
                    && is_snapshot_of(v@, old(self).store()),
                _ => reply is None,
            },
            keeps_sent(*old(self), *final(self)),
    {
        match message {
            Message::NewEntity(e) => {
                self.entities.insert(e);
                None
            },
            Message::AllEntities(all) => {
                self.entities.replace_all(&all);
                None
            },
            Message::RequestAllEntities => {
                let all = self.entities.snapshot();
                Some(Message::AllEntities(all))
            },
        }
    }

    /// The local entities whose id has not been sent yet, each once.
    pub fn outbound_pending(&self) -> (r: Vec<Entity>)
        requires
            self.wf(),
        ensures
            is_snapshot_of(r@, pending(self.store(), self.sent_ids())),
    {
        let all = self.entities.snapshot();
        let ghost m = self.entities@;
        let ghost p = pending(m, self.sent_ids());
        let mut r: Vec<Entity> = Vec::new();
        let mut i: usize = 0;
        while i < all.len()
            invariant
                i <= all@.len(),
                is_snapshot_of(all@, m),
                p == pending(m, self.sent_ids()),
                forall|j: int| 0 <= j < r@.len() ==> p.contains_key(#[trigger] r@[j].id) && p[r@[j].id] == r@[j],
                forall|a: int, b: int| 0 <= a < b < r@.len() ==> r@[a].id != r@[b].id,
                forall|j: int| 0 <= j < r@.len() ==> exists|k: int| 0 <= k < i && all@[k] == #[trigger] r@[j],
                forall|k: int| 0 <= k < i && p.contains_key(#[trigger] all@[k].id) ==> exists|j: int| 0 <= j < r@.len() && r@[j] == all@[k],
            decreases all@.len() - i,
        {
            let e = all[i];
            if !self.sent.contains(&e.id) {
                let ghost before = r@;
                r.push(e);
                proof {
                    assert(r@[r@.len() - 1] == e);
                    assert forall|a: int, b: int| 0 <= a < b < r@.len() implies r@[a].id != r@[b].id by {
                        if b == r@.len() - 1 {
                            assert(before[a] == r@[a]);
                            let k = choose|k: int| 0 <= k < i && all@[k] == #[trigger] before[a];
                            assert(all@[k].id != all@[i as int].id);
                        }
                    }
                    assert forall|j: int| 0 <= j < r@.len() implies exists|k: int| 0 <= k < i + 1 && all@[k] == #[trigger] r@[j] by {
                        if j < r@.len() - 1 {
                            assert(before[j] == r@[j]);
                        } else {
                            assert(all@[i as int] == r@[j]);
                        }
                    }
                    assert forall|k: int| 0 <= k < i + 1 && p.contains_key(#[trigger] all@[k].id) implies exists|j: int| 0 <= j < r@.len() && r@[j] == all@[k] by {
                        if k < i {
                            let j = choose|j: int| 0 <= j < before.len() && before[j] == all@[k];
                            assert(r@[j] == all@[k]);
                        } else {
                            assert(r@[r@.len() - 1] == all@[k]);
                        }
                    }
                }
            }
            i = i + 1;
        }
        proof {
            assert forall|k: usize| p.contains_key(k) implies exists|j: int| 0 <= j < r@.len() && r@[j].id == k by {
                assert(m.contains_key(k));
                let a = choose|a: int| 0 <= a < all@.len() && all@[a].id == k;
                assert(p.contains_key(all@[a].id));
                let j = choose|j: int| 0 <= j < r@.len() && r@[j] == all@[a];
            }
        }
        r
    }

    /// The entity with this id went out: it is not sent again while it
    /// stays in the table.
    pub fn mark_sent(&mut self, id: usize)
        requires
            old(self).wf(),
        ensures
            final(self).wf(),
            final(self).sent_ids() == old(self).sent_ids().insert(id),
            final(self).store() == old(self).store(),
            final(self).stream() == old(self).stream(),
            final(self).requesting() == old(self).requesting(),
            keeps_sent(*old(self), *final(self)),
    {
        self.sent.insert(id);
    }

    /// Forgets the sent ids that are no longer in the table.
    pub fn prune_sent(&mut self)
        requires
            old(self).wf(),
        ensures
            final(self).wf(),
            final(self).sent_ids() == old(self).sent_ids().intersect(old(self).store().dom()),
            final(self).store() == old(self).store(),
            final(self).stream() == old(self).stream(),
            final(self).requesting() == old(self).requesting(),
            keeps_sent(*old(self), *final(self)),
    {
        let all = self.entities.snapshot();
        let ghost m = self.entities@;
        let mut kept: HashSet<usize> = HashSet::new();
        let mut i: usize = 0;
        while i < all.len()
            invariant
                i <= all@.len(),
                is_snapshot_of(all@, m),
                kept@ == Set::new(|id: usize| exists|k: int| 0 <= k < i && all@[k].id == id && self.sent@.contains(id)),
            decreases all@.len() - i,
        {
            let id = all[i].id;
            let ghost before = kept@;
            if self.sent.contains(&id) {
                kept.insert(id);
            }
            proof {
                assert(kept@ =~= Set::new(|x: usize| exists|k: int| 0 <= k < i + 1 && all@[k].id == x && self.sent@.contains(x)));
            }
            i = i + 1;
        }
        proof {
            assert forall|x: usize| kept@.contains(x) == old(self).sent@.intersect(m.dom()).contains(x) by {
                if old(self).sent@.contains(x) && m.contains_key(x) {
                    let k = choose|k: int| 0 <= k < all@.len() && all@[k].id == x;
                }
            }
            assert(kept@ =~= old(self).sent@.intersect(m.dom()));
        }
        self.sent = kept;
    }
}

/// Two upserts of the same id leave only the second value.
pub proof fn lemma_last_write_wins(m: Map<usize, Entity>, a: Entity, b: Entity)
    requires
        a.id == b.id,
    ensures
        apply_to(apply_to(m, Message::NewEntity(a)), Message::NewEntity(b)) == m.insert(b.id, b),
        apply_to(apply_to(m, Message::NewEntity(a)), Message::NewEntity(b))[b.id] == b,
{
    assert(m.insert(a.id, a).insert(b.id, b) =~= m.insert(b.id, b));
}

/// A snapshot replaces the table: what was there before is gone, and the
/// table holds exactly the listed ids, with the listed entities when their
/// ids are distinct.
pub proof fn lemma_snapshot_apply(m: Map<usize, Entity>, v: Vec<Entity>)
    ensures
        apply_to(m, Message::AllEntities(v)).dom() == Set::new(
            |k: usize| exists|i: int| 0 <= i < v@.len() && v@[i].id == k,
        ),
        (forall|i: int, j: int| 0 <= i < j < v@.len() ==> v@[i].id != v@[j].id) ==> is_snapshot_of(
            v@,
            apply_to(m, Message::AllEntities(v)),
        ),
{
    lemma_snapshot_replace(v@);
}

/// An id once sent is not pending while it stays sent; pruning keeps it
/// sent as long as its entity is in the table, and it becomes pending again
/// only after it left the table and came back.
pub proof fn lemma_sent_not_resent(m: Map<usize, Entity>, sent: Set<usize>, id: usize)
    requires
        sent.contains(id),
    ensures
        !pending(m, sent).contains_key(id),
        m.contains_key(id) ==> sent.intersect(m.dom()).contains(id),
        !pending(m, sent.intersect(m.dom())).contains_key(id),
{
}

/// Dedup over any run of steps: when each step keeps sent ids and the
/// entity's id stays in the table throughout, an id sent at the start is
/// never pending again.
pub proof fn lemma_sent_never_pending(states: Seq<ClientState>, id: usize)
    requires
        states.len() > 0,
        states[0].sent_ids().contains(id),
        forall|i: int| 0 <= i < states.len() ==> (#[trigger] states[i]).store().contains_key(id),
        forall|i: int| 0 <= i < states.len() - 1 ==> keeps_sent(#[trigger] states[i], states[i + 1]),
    ensures
        forall|i: int|
            0 <= i < states.len() ==> !pending((#[trigger] states[i]).store(), states[i].sent_ids()).contains_key(id),
    decreases states.len(),
{
    if states.len() > 1 {
        let init = states.drop_last();
        lemma_sent_never_pending(init, id);
        let n = states.len() - 1;
        assert(keeps_sent(states[n - 1], states[n]));
        assert(init[n - 1] == states[n - 1]);
        assert(states[n].sent_ids().contains(id));
        assert forall|i: int| 0 <= i < states.len() implies !pending(
            (#[trigger] states[i]).store(),
            states[i].sent_ids(),
        ).contains_key(id) by {
            if i < n {
                assert(init[i] == states[i]);
            }
        }
    }
}

} // verus!
