//! The authoritative side: the set of connected peers, the entity table, and
//! what is to be sent on each event.
//!
//! Peers are known by a connection id that the state hands out on accept and
//! never reuses. The caller owns the transports, performs the returned
//! `Outgoing` writes, and reports reads, closes and failed writes back.

use crate::codec::{MessageHandler, drain, payloads_view};
use crate::entity::Entity;
use crate::message::{Message, Outgoing, targets};
use crate::store::{EntityStore, is_snapshot_of};
use vstd::prelude::*;

verus! {

/// What the server shows of a connected peer: its address in text form.
#[derive(Debug, Clone, PartialEq)]
pub struct ClientInfo {
    pub addr: String,
}

struct Peer {
    id: u64,
    info: ClientInfo,
    handler: MessageHandler,
}

/// A peer as the contracts see it: connection id, address, bytes received
/// and not yet decoded.
pub type PeerView = (u64, Seq<char>, Seq<u8>);

pub open spec fn ids_of(ps: Seq<PeerView>) -> Seq<u64> {
    ps.map_values(|p: PeerView| p.0)
}

/// The ids of `ids`, in order, except `from`: who a relay reaches.
pub open spec fn others(ids: Seq<u64>, from: u64) -> Seq<u64>
    decreases ids.len(),
{
    if ids.len() == 0 {
        Seq::empty()
    } else if ids.last() == from {
        others(ids.drop_last(), from)
    } else {
        others(ids.drop_last(), from).push(ids.last())
    }
}

/// The peers of `ps`, in order, whose id is not in `marked`.
pub open spec fn keep_unmarked(ps: Seq<PeerView>, marked: Seq<u64>) -> Seq<PeerView>
    decreases ps.len(),
{
    if ps.len() == 0 {
        Seq::empty()
    } else if marked.contains(ps[0].0) {
        keep_unmarked(ps.drop_first(), marked)
    } else {
        seq![ps[0]] + keep_unmarked(ps.drop_first(), marked)
    }
}

spec fn view_of(ps: Seq<Peer>) -> Seq<PeerView> {
    ps.map_values(|p: Peer| (p.id, p.info.addr@, p.handler.stream()))
}

/// Every peer that `keep_unmarked` keeps was there before and is unmarked.
pub proof fn lemma_keep_unmarked(ps: Seq<PeerView>, marked: Seq<u64>)
    ensures
        forall|x: PeerView| #[trigger] keep_unmarked(ps, marked).contains(x) ==> ps.contains(x)
            && !marked.contains(x.0),
    decreases ps.len(),
{
    if ps.len() > 0 {
        lemma_keep_unmarked(ps.drop_first(), marked);
        assert forall|x: PeerView| #[trigger] keep_unmarked(ps, marked).contains(x) implies ps.contains(x)
            && !marked.contains(x.0) by {
            let k = keep_unmarked(ps, marked);
            let j = choose|j: int| 0 <= j < k.len() && k[j] == x;
            let tail = keep_unmarked(ps.drop_first(), marked);
            if !marked.contains(ps[0].0) && j == 0 {
                assert(ps[0] == x);
            } else {
                if marked.contains(ps[0].0) {
                    assert(tail[j] == x);
                } else {
                    assert(tail[j - 1] == x);
                }
                assert(tail.contains(x));
                let i = choose|i: int| 0 <= i < ps.drop_first().len() && ps.drop_first()[i] == x;
                assert(ps[i + 1] == x);
            }
        }
    }
}

pub struct ServerState {
    /// The entity table, shared with the drawing side.
    pub entities: EntityStore,
    peers: Vec<Peer>,
    to_remove: Vec<u64>,
    next_id: u64,
}

fn contains_id(v: &Vec<u64>, id: u64) -> (r: bool)
    ensures
        r == v@.contains(id),
{
    let mut i: usize = 0;
    while i < v.len()
        invariant
            i <= v@.len(),
            forall|j: int| 0 <= j < i ==> v@[j] != id,
        decreases v@.len() - i,
    {
        if v[i] == id {
            return true;
        }
        i = i + 1;
    }
    false
}

impl ServerState {
    pub closed spec fn peers_view(&self) -> Seq<PeerView> {
        view_of(self.peers@)
    }

    pub open spec fn peer_ids(&self) -> Seq<u64> {
        ids_of(self.peers_view())
    }

    pub open spec fn has_peer(&self, id: u64) -> bool {
        self.peer_ids().contains(id)
    }

    /// The entity table.
    pub closed spec fn store(&self) -> Map<usize, Entity> {
        self.entities@
    }

    /// The peers marked for the next removal pass.
    pub closed spec fn marked(&self) -> Seq<u64> {
        self.to_remove@
    }

    /// The id the next accepted peer receives.
    pub closed spec fn next_peer_id(&self) -> u64 {
        self.next_id
    }

    /// A connection that was handed out and is gone: it is never handed out
    /// again.
    pub open spec fn retired(&self, id: u64) -> bool {
        id < self.next_peer_id() && !self.has_peer(id)
    }

    proof fn lemma_peer_ids(&self)
        ensures
            self.peer_ids().len() == self.peers@.len(),
            forall|j: int| 0 <= j < self.peers@.len() ==> #[trigger] self.peer_ids()[j] == self.peers@[j].id,
    {
    }

    pub closed spec fn wf(&self) -> bool {
        &&& self.entities.wf()
        &&& forall|i: int| 0 <= i < self.peers@.len() ==> (#[trigger] self.peers@[i]).handler.wf()
        &&& forall|i: int| 0 <= i < self.peers@.len() ==> (#[trigger] self.peers@[i]).id < self.next_id
        &&& forall|i: int, j: int|
            0 <= i < j < self.peers@.len() ==> self.peers@[i].id != self.peers@[j].id
    }

    pub fn new() -> (r: Self)
        ensures
            r.wf(),
            r.peers_view() == Seq::<PeerView>::empty(),
            r.store() == Map::<usize, Entity>::empty(),
            r.marked() == Seq::<u64>::empty(),
    {
        let r = ServerState {
            entities: EntityStore::new(),
            peers: Vec::new(),
            to_remove: Vec::new(),
            next_id: 0,
        };
        assert(r.peers_view() =~= Seq::<PeerView>::empty());
        r
    }

    fn find_peer(&self, id: u64) -> (r: Option<usize>)
        ensures
            match r {
                Some(i) => i < self.peers@.len() && self.peers@[i as int].id == id,
                None => !self.has_peer(id),
            },
    {
        let mut i: usize = 0;
        while i < self.peers.len()
            invariant
                i <= self.peers@.len(),
                forall|j: int| 0 <= j < i ==> self.peers@[j].id != id,
            decreases self.peers@.len() - i,
        {
            if self.peers[i].id == id {
                return Some(i);
            }
            i = i + 1;
        }
        proof {
            if self.has_peer(id) {
                let j = choose|j: int| 0 <= j < self.peer_ids().len() && self.peer_ids()[j] == id;
                assert(self.peers@[j].id == id);
            }
        }
        None
    }

    /// Registers a new connection with its address and returns its id, with
    /// a snapshot to send it when the table is not empty. Returns `None`, and
    /// changes nothing, once every id has been handed out.
    pub fn accept(&mut self, addr: String) -> (r: Option<(u64, Vec<Outgoing>)>)
        requires
            old(self).wf(),
        ensures
            final(self).wf(),
            final(self).store() == old(self).store(),
            final(self).marked() == old(self).marked(),
            forall|k: u64| old(self).retired(k) ==> #[trigger] final(self).retired(k),
            r matches Some((_, out)) ==> forall|j: int| 0 <= j < out@.len() ==> final(self).has_peer(
                #[trigger] out@[j].to,
            ),
            match r {
                None => old(self).next_peer_id() == u64::MAX && *final(self) == *old(self),
                Some((id, out)) => {
                    &&& old(self).next_peer_id() < u64::MAX
                    &&& id == old(self).next_peer_id()
                    &&& !old(self).has_peer(id)
                    &&& final(self).next_peer_id() == id + 1
                    &&& final(self).peers_view() == old(self).peers_view().push(
                        (id, addr@, Seq::<u8>::empty()),
                    )
                    &&& out@.len() == if old(self).store().len() == 0 { 0int } else { 1int }
                    &&& forall|j: int| 0 <= j < out@.len() ==> {
                        &&& (#[trigger] out@[j]).to == id
                        &&& out@[j].message matches Message::AllEntities(v) && is_snapshot_of(v@, old(self).store())
                    }
                },
            },
    {
        if self.next_id == u64::MAX {
            return None;
        }
        let id = self.next_id;
        let mut out: Vec<Outgoing> = Vec::new();
        if !self.entities.is_empty() {
            let all = self.entities.snapshot();
            out.push(Outgoing { to: id, message: Message::AllEntities(all) });
        }
        self.next_id = id + 1;
        self.peers.push(Peer { id, info: ClientInfo { addr }, handler: MessageHandler::new() });
        proof {
            assert(self.peers_view() =~= old(self).peers_view().push((id, addr@, Seq::<u8>::empty())));
            assert forall|k: u64| old(self).retired(k) implies #[trigger] self.retired(k) by {
                assert(self.peer_ids() =~= old(self).peer_ids().push(id));
                assert(k != id);
            }
            assert forall|i: int| 0 <= i < old(self).peers@.len() implies old(self).peers@[i].id != id by {
                assert(old(self).peers@[i].id < old(self).next_id);
            }
        }
        proof {
            assert(self.peer_ids() =~= old(self).peer_ids().push(id));
            assert(self.peer_ids()[self.peer_ids().len() - 1] == id);
            assert(self.has_peer(id));
        }
        Some((id, out))
    }

    /// Takes in an entity produced locally: stores it and announces it to
    /// every connected peer.
    pub fn ingest_local_entity(&mut self, e: Entity) -> (out: Vec<Outgoing>)
        requires
            old(self).wf(),
        ensures
            final(self).wf(),
            final(self).store() == old(self).store().insert(e.id, e),
            final(self).peers_view() == old(self).peers_view(),
            final(self).marked() == old(self).marked(),
            final(self).next_peer_id() == old(self).next_peer_id(),
            targets(out@) == old(self).peer_ids(),
            forall|j: int| 0 <= j < out@.len() ==> (#[trigger] out@[j]).message == Message::NewEntity(e),
            forall|j: int| 0 <= j < out@.len() ==> final(self).has_peer(#[trigger] out@[j].to),
            forall|k: u64| old(self).retired(k) ==> #[trigger] final(self).retired(k),
    {
        self.entities.insert(e);
        proof { old(self).lemma_peer_ids(); }
        let mut out: Vec<Outgoing> = Vec::new();
        let mut i: usize = 0;
        while i < self.peers.len()
            invariant
                i <= self.peers@.len(),
                self.peers@ == old(self).peers@,
                old(self).peer_ids().len() == old(self).peers@.len(),
                forall|j: int| 0 <= j < old(self).peers@.len() ==> #[trigger] old(self).peer_ids()[j] == old(self).peers@[j].id,
                targets(out@) == old(self).peer_ids().take(i as int),
                forall|j: int| 0 <= j < out@.len() ==> (#[trigger] out@[j]).message == Message::NewEntity(e),
            decreases self.peers@.len() - i,
        {
            let ghost before = out@;
            out.push(Outgoing { to: self.peers[i].id, message: Message::NewEntity(e) });
            assert(targets(out@) =~= targets(before).push(self.peers@[i as int].id));
            i = i + 1;
            assert(targets(out@) =~= old(self).peer_ids().take(i as int));
        }
        assert(old(self).peer_ids().take(i as int) =~= old(self).peer_ids());
        proof {
            assert forall|j: int| 0 <= j < out@.len() implies self.has_peer(#[trigger] out@[j].to) by {
                assert(targets(out@)[j] == out@[j].to);
                assert(self.peer_ids()[j] == out@[j].to);
            }
        }
        out
    }

    /// Acts on a message decoded from peer `from`. An entity is stored and
    /// relayed to every other peer, never back to `from`; a snapshot request
    /// is answered to `from` alone; a snapshot from a peer is ignored, as is a
    /// request from an id that is not connected.
    pub fn handle_client_message(&mut self, from: u64, message: Message) -> (out: Vec<Outgoing>)
        requires
            old(self).wf(),
        ensures
            final(self).wf(),
            final(self).peers_view() == old(self).peers_view(),
            final(self).marked() == old(self).marked(),
            final(self).next_peer_id() == old(self).next_peer_id(),
            match message {
                Message::NewEntity(e) => {
                    &&& final(self).store() == old(self).store().insert(e.id, e)
                    &&& targets(out@) == others(old(self).peer_ids(), from)
                    &&& forall|j: int| 0 <= j < out@.len() ==> (#[trigger] out@[j]).message == Message::NewEntity(e)
                },
                Message::RequestAllEntities => {
                    &&& final(self).store() == old(self).store()
                    &&& out@.len() == if old(self).has_peer(from) { 1int } else { 0int }
                    &&& forall|j: int| 0 <= j < out@.len() ==> {
                        &&& (#[trigger] out@[j]).to == from
                        &&& out@[j].message matches Message::AllEntities(v) && is_snapshot_of(v@, old(self).store())
                    }
                },
                Message::AllEntities(_) => {
                    &&& final(self).store() == old(self).store()
                    &&& out@.len() == 0
                },
            },
            forall|j: int| 0 <= j < out@.len() ==> final(self).has_peer(#[trigger] out@[j].to),
            forall|k: u64| old(self).retired(k) ==> #[trigger] final(self).retired(k),
    {
        let mut out: Vec<Outgoing> = Vec::new();
        match message {
            Message::NewEntity(e) => {
                self.entities.insert(e);
                proof { old(self).lemma_peer_ids(); }
                let mut i: usize = 0;
                while i < self.peers.len()
                    invariant
                        i <= self.peers@.len(),
                        self.peers@ == old(self).peers@,
                        old(self).peer_ids().len() == old(self).peers@.len(),
                        forall|j: int| 0 <= j < old(self).peers@.len() ==> #[trigger] old(self).peer_ids()[j] == old(self).peers@[j].id,
                        targets(out@) == others(old(self).peer_ids().take(i as int), from),
                        forall|j: int| 0 <= j < out@.len() ==> (#[trigger] out@[j]).message == Message::NewEntity(e),
                    decreases self.peers@.len() - i,
                {
                    let ghost ids = old(self).peer_ids();
                    assert(ids.take(i as int + 1).drop_last() =~= ids.take(i as int));
                    let to = self.peers[i].id;
                    if to != from {
                        let ghost before = out@;
                        out.push(Outgoing { to, message: Message::NewEntity(e) });
                        assert(targets(out@) =~= targets(before).push(to));
                        assert(targets(out@) =~= others(ids.take(i as int), from).push(to));
                    }
                    i = i + 1;
                }
                assert(old(self).peer_ids().take(i as int) =~= old(self).peer_ids());
                proof {
                    lemma_relay_exclusion(old(self).peer_ids(), from);
                    assert forall|j: int| 0 <= j < out@.len() implies self.has_peer(#[trigger] out@[j].to) by {
                        assert(targets(out@)[j] == out@[j].to);
                        assert(others(old(self).peer_ids(), from).contains(out@[j].to));
                    }
                }
            },
            Message::RequestAllEntities => {
                proof {
                    self.lemma_peer_ids();
                }
                if let Some(i) = self.find_peer(from) {
                    assert(self.peer_ids()[i as int] == from);
                    let all = self.entities.snapshot();
                    out.push(Outgoing { to: from, message: Message::AllEntities(all) });
                }
            },
            Message::AllEntities(_) => {},
        }
        out
    }

    /// Feeds bytes read from peer `id` to that peer's decoder and returns the
    /// payloads now complete, in stream order. Bytes for an id that is not
    /// connected are dropped.
    pub fn receive(&mut self, id: u64, data: &[u8]) -> (frames: Vec<Vec<u8>>)
        requires
            old(self).wf(),
        ensures
            final(self).wf(),
            final(self).store() == old(self).store(),
            final(self).marked() == old(self).marked(),
            final(self).next_peer_id() == old(self).next_peer_id(),
            final(self).peer_ids() == old(self).peer_ids(),
            if old(self).has_peer(id) {
                exists|i: int|
                    0 <= i < old(self).peers_view().len() && old(self).peers_view()[i].0 == id
                        && final(self).peers_view() == old(self).peers_view().update(
                        i,
                        (id, old(self).peers_view()[i].1, drain(old(self).peers_view()[i].2 + data@).1),
                    ) && payloads_view(frames@) == drain(old(self).peers_view()[i].2 + data@).0
            } else {
                &&& frames@.len() == 0
                &&& final(self).peers_view() == old(self).peers_view()
            },
            forall|k: u64| old(self).retired(k) ==> #[trigger] final(self).retired(k),
    {
        proof {
            self.lemma_peer_ids();
        }
        match self.find_peer(id) {
            Some(i) => {
                let mut p = self.peers.remove(i);
                let frames = p.handler.receive(data);
                self.peers.insert(i, p);
                proof {
                    assert(self.peers@ =~= old(self).peers@.update(i as int, p));
                    assert(self.peers_view() =~= old(self).peers_view().update(
                        i as int,
                        (id, old(self).peers_view()[i as int].1, drain(old(self).peers_view()[i as int].2 + data@).1),
                    ));
                    assert(self.peer_ids() =~= old(self).peer_ids());
                    assert(forall|j: int| 0 <= j < self.peers@.len() && j != i ==> self.peers@[j] == old(self).peers@[j]);
                    assert(old(self).peers_view()[i as int].0 == id);
                    assert(old(self).peer_ids()[i as int] == id);
                    assert(old(self).has_peer(id));
                    assert(old(self).peers_view()[i as int].2 == old(self).peers@[i as int].handler.stream());
                }
                frames
            },
            None => {
                let none: Vec<Vec<u8>> = Vec::new();
                assert(self.peers_view() == old(self).peers_view());
                none
            },
        }
    }

    /// Marks peer `id` for the next removal pass (its read returned no bytes
    /// or failed).
    pub fn mark_for_removal(&mut self, id: u64)
        requires
            old(self).wf(),
        ensures
            final(self).wf(),
            final(self).store() == old(self).store(),
            final(self).peers_view() == old(self).peers_view(),
            final(self).next_peer_id() == old(self).next_peer_id(),
            final(self).marked() == old(self).marked().push(id),
            forall|k: u64| old(self).retired(k) ==> #[trigger] final(self).retired(k),
    {
        self.to_remove.push(id);
    }

    fn retain_unmarked(&mut self, marked: &Vec<u64>)
        requires
            old(self).wf(),
        ensures
            final(self).wf(),
            final(self).store() == old(self).store(),
            final(self).marked() == old(self).marked(),
            final(self).next_peer_id() == old(self).next_peer_id(),
            final(self).peers_view() == keep_unmarked(old(self).peers_view(), marked@),
            forall|k: u64| old(self).retired(k) ==> #[trigger] final(self).retired(k),
    {
        proof {
            self.lemma_peer_ids();
        }
        let ghost ids = old(self).peer_ids();
        let mut rest: Vec<Peer> = Vec::new();
        std::mem::swap(&mut self.peers, &mut rest);
        assert(view_of(self.peers@) =~= Seq::<PeerView>::empty());
        assert(view_of(rest@) == old(self).peers_view());
        assert forall|j: int| 0 <= j < rest@.len() implies ids.contains(rest@[j].id) by {
            assert(ids[j] == rest@[j].id);
        }
        while rest.len() > 0
            invariant
                self.entities == old(self).entities,
                self.to_remove == old(self).to_remove,
                self.next_id == old(self).next_id,
                self.entities.wf(),
                forall|j: int| 0 <= j < self.peers@.len() ==> (#[trigger] self.peers@[j]).handler.wf()
                    && self.peers@[j].id < self.next_id && ids.contains(self.peers@[j].id),
                forall|j: int| 0 <= j < rest@.len() ==> (#[trigger] rest@[j]).handler.wf()
                    && rest@[j].id < self.next_id && ids.contains(rest@[j].id),
                forall|a: int, b: int|
                    0 <= a < b < self.peers@.len() ==> self.peers@[a].id != self.peers@[b].id,
                forall|a: int, b: int| 0 <= a < b < rest@.len() ==> rest@[a].id != rest@[b].id,
                forall|a: int, b: int|
                    0 <= a < self.peers@.len() && 0 <= b < rest@.len() ==> self.peers@[a].id
                        != rest@[b].id,
                keep_unmarked(old(self).peers_view(), marked@) == view_of(self.peers@)
                    + keep_unmarked(view_of(rest@), marked@),
            decreases rest@.len(),
        {
            let ghost r0 = rest@;
            let ghost s0 = self.peers@;
            let p = rest.remove(0);
            assert(view_of(rest@) =~= view_of(r0).drop_first());
            assert(view_of(r0)[0] == (p.id, p.info.addr@, p.handler.stream()));
            if !contains_id(marked, p.id) {
                self.peers.push(p);
                assert(view_of(self.peers@) =~= view_of(s0) + seq![view_of(r0)[0]]);
                assert(view_of(s0) + keep_unmarked(view_of(r0), marked@) =~= view_of(self.peers@)
                    + keep_unmarked(view_of(rest@), marked@));
                assert forall|a: int, b: int|
                    0 <= a < self.peers@.len() && 0 <= b < rest@.len() implies self.peers@[a].id
                        != rest@[b].id by {
                    assert(rest@[b] == r0[b + 1]);
                    if a < s0.len() {
                        assert(self.peers@[a] == s0[a]);
                    }
                }
            } else {
                assert forall|a: int, b: int|
                    0 <= a < self.peers@.len() && 0 <= b < rest@.len() implies self.peers@[a].id
                        != rest@[b].id by {
                    assert(rest@[b] == r0[b + 1]);
                }
            }
            assert forall|j: int| 0 <= j < rest@.len() implies (#[trigger] rest@[j]).handler.wf()
                && rest@[j].id < self.next_id && ids.contains(rest@[j].id) by {
                assert(rest@[j] == r0[j + 1]);
            }
            assert forall|a: int, b: int| 0 <= a < b < rest@.len() implies rest@[a].id != rest@[b].id by {
                assert(rest@[a] == r0[a + 1]);
                assert(rest@[b] == r0[b + 1]);
            }
        }
        assert(keep_unmarked(view_of(rest@), marked@) =~= Seq::<PeerView>::empty());
        assert(view_of(self.peers@) + Seq::<PeerView>::empty() =~= view_of(self.peers@));
        proof {
            assert forall|k: u64| old(self).retired(k) implies #[trigger] self.retired(k) by {
                if self.has_peer(k) {
                    let j = choose|j: int| 0 <= j < self.peer_ids().len() && self.peer_ids()[j] == k;
                    assert(self.peers@[j].id == k);
                }
            }
        }
    }

    /// Removes every peer marked since the last pass, then forgets the marks.
    pub fn removal_pass(&mut self)
        requires
            old(self).wf(),
        ensures
            final(self).wf(),
            final(self).store() == old(self).store(),
            final(self).next_peer_id() == old(self).next_peer_id(),
            final(self).marked() == Seq::<u64>::empty(),
            final(self).peers_view() == keep_unmarked(old(self).peers_view(), old(self).marked()),
            forall|k: u64| old(self).marked().contains(k) ==> !final(self).has_peer(k),
            forall|k: u64|
                old(self).has_peer(k) && old(self).marked().contains(k) ==> #[trigger] final(self).retired(k),
            forall|k: u64| old(self).retired(k) ==> #[trigger] final(self).retired(k),
    {
        let mut marked: Vec<u64> = Vec::new();
        std::mem::swap(&mut self.to_remove, &mut marked);
        self.retain_unmarked(&marked);
        proof {
            lemma_keep_unmarked(old(self).peers_view(), old(self).marked());
            assert forall|k: u64| old(self).marked().contains(k) implies !self.has_peer(k) by {
                if self.has_peer(k) {
                    let j = choose|j: int| 0 <= j < self.peer_ids().len() && self.peer_ids()[j] == k;
                    assert(keep_unmarked(old(self).peers_view(), old(self).marked()).contains(
                        self.peers_view()[j],
                    ));
                }
            }
            old(self).lemma_peer_ids();
            assert forall|k: u64| old(self).has_peer(k) && old(self).marked().contains(k) implies #[trigger] self.retired(k) by {
                let j = choose|j: int| 0 <= j < old(self).peer_ids().len() && old(self).peer_ids()[j] == k;
                assert(old(self).peers@[j].id == k);
            }
        }
    }

    /// Removes peer `id` at once (a write to it failed).
    pub fn drop_peer(&mut self, id: u64)
        requires
            old(self).wf(),
        ensures
            final(self).wf(),
            final(self).store() == old(self).store(),
            final(self).next_peer_id() == old(self).next_peer_id(),
            final(self).marked() == old(self).marked(),
            final(self).peers_view() == keep_unmarked(old(self).peers_view(), seq![id]),
            !final(self).has_peer(id),
            forall|k: u64| old(self).retired(k) ==> #[trigger] final(self).retired(k),
    {
        let marked: Vec<u64> = vec![id];
        self.retain_unmarked(&marked);
        proof {
            lemma_keep_unmarked(old(self).peers_view(), seq![id]);
            assert(marked@ =~= seq![id]);
            if self.has_peer(id) {
                let j = choose|j: int| 0 <= j < self.peer_ids().len() && self.peer_ids()[j] == id;
                assert(keep_unmarked(old(self).peers_view(), seq![id]).contains(self.peers_view()[j]));
                assert(seq![id][0] == id);
            }
        }
    }

    /// The addresses of the connected peers, in order of connection.
    pub fn peer_addresses(&self) -> (r: Vec<String>)
        ensures
            r@.len() == self.peers_view().len(),
            forall|j: int| 0 <= j < r@.len() ==> (#[trigger] r@[j])@ == self.peers_view()[j].1,
    {
        let mut r: Vec<String> = Vec::new();
        let mut i: usize = 0;
        while i < self.peers.len()
            invariant
                i <= self.peers@.len(),
                r@.len() == i,
                forall|j: int| 0 <= j < i ==> (#[trigger] r@[j])@ == self.peers@[j].info.addr@,
            decreases self.peers@.len() - i,
        {
            r.push(self.peers[i].info.addr.clone());
            i = i + 1;
        }
        r
    }
}

/// A relay reaches every connected peer but its sender, and never the sender.
pub proof fn lemma_relay_exclusion(ids: Seq<u64>, from: u64)
    ensures
        !others(ids, from).contains(from),
        forall|q: u64| ids.contains(q) && q != from ==> #[trigger] others(ids, from).contains(q),
        forall|q: u64| #[trigger] others(ids, from).contains(q) ==> ids.contains(q),
    decreases ids.len(),
{
    if ids.len() > 0 {
        let init = ids.drop_last();
        lemma_relay_exclusion(init, from);
        let o = others(ids, from);
        let oi = others(init, from);
        assert forall|q: u64| ids.contains(q) && q != from implies #[trigger] o.contains(q) by {
            let j = choose|j: int| 0 <= j < ids.len() && ids[j] == q;
            if j < ids.len() - 1 {
                assert(init[j] == q);
                assert(init.contains(q));
                assert(oi.contains(q));
                let k = choose|k: int| 0 <= k < oi.len() && oi[k] == q;
                if ids.last() != from {
                    assert(o[k] == q);
                }
            } else {
                assert(o[o.len() - 1] == q);
            }
        }
        assert forall|q: u64| #[trigger] o.contains(q) implies ids.contains(q) by {
            let k = choose|k: int| 0 <= k < o.len() && o[k] == q;
            if ids.last() != from && k == o.len() - 1 {
                assert(ids[ids.len() - 1] == q);
            } else {
                assert(oi[k] == q);
                assert(oi.contains(q));
                assert(init.contains(q));
                let j = choose|j: int| 0 <= j < init.len() && init[j] == q;
                assert(ids[j] == q);
            }
        }
        if o.contains(from) {
            let k = choose|k: int| 0 <= k < o.len() && o[k] == from;
            if !(ids.last() != from && k == o.len() - 1) {
                assert(oi[k] == from);
            }
        }
    }
}

/// A retired connection is never the target of a message: the messages
/// produced by a state always go to its connected peers, and a retired id
/// stays retired.
pub proof fn lemma_retired_never_addressed(s: ServerState, id: u64, out: Seq<Outgoing>)
    requires
        s.retired(id),
        forall|j: int| 0 <= j < out.len() ==> s.has_peer(#[trigger] out[j].to),
    ensures
        !targets(out).contains(id),
{
    if targets(out).contains(id) {
        let j = choose|j: int| 0 <= j < targets(out).len() && targets(out)[j] == id;
        assert(s.has_peer(out[j].to));
    }
}

/// No message after a removal, over any run of steps: when each step keeps
/// retired ids retired and addresses only the peers connected after it, no
/// message of the run goes to an id retired at its start.
pub proof fn lemma_removed_peer_never_addressed(
    states: Seq<ServerState>,
    outs: Seq<Seq<Outgoing>>,
    id: u64,
)
    requires
        states.len() == outs.len() + 1,
        states[0].retired(id),
        forall|i: int|
            0 <= i < outs.len() ==> forall|k: u64| (#[trigger] states[i]).retired(k) ==> states[i + 1].retired(k),
        forall|i: int, j: int|
            0 <= i < outs.len() && 0 <= j < outs[i].len() ==> states[i + 1].has_peer(#[trigger] outs[i][j].to),
    ensures
        forall|i: int| 0 <= i < states.len() ==> (#[trigger] states[i]).retired(id),
        forall|i: int, j: int| 0 <= i < outs.len() && 0 <= j < outs[i].len() ==> #[trigger] outs[i][j].to != id,
    decreases outs.len(),
{
    if outs.len() > 0 {
        let n = outs.len() - 1;
        lemma_removed_peer_never_addressed(states.drop_last(), outs.drop_last(), id);
        assert(states.drop_last()[n] == states[n]);
        assert(states[n].retired(id));
        assert(states[n + 1].retired(id));
        assert forall|i: int| 0 <= i < states.len() implies (#[trigger] states[i]).retired(id) by {
            if i <= n {
                assert(states.drop_last()[i] == states[i]);
            }
        }
        assert forall|i: int, j: int| 0 <= i < outs.len() && 0 <= j < outs[i].len() implies #[trigger] outs[i][j].to != id by {
            assert(states[i + 1].retired(id));
            assert(states[i + 1].has_peer(outs[i][j].to));
        }
    }
}

} // verus!