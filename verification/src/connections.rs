use vstd::prelude::*;

use omnipaxos::util::NodeId;
use std::collections::HashMap;
use vstd::std_specs::hash::spec_keys_iter;
use vstd::std_specs::iter::IteratorSpec;

verus! {

/// The outgoing channels of one node, by peer: those it currently sends on, and those it
/// has been cut off from and keeps for reconnecting later. A peer is never in both.
pub struct ConnectionTable<C> {
    connections: HashMap<NodeId, C>,
    disconnected: HashMap<NodeId, C>,
}

/// The abstract state of a [`ConnectionTable`]: the two maps from peer to channel.
pub struct ConnectionTableView<C> {
    pub connections: Map<NodeId, C>,
    pub disconnected: Map<NodeId, C>,
}

impl<C> View for ConnectionTable<C> {
    type V = ConnectionTableView<C>;

    closed spec fn view(&self) -> ConnectionTableView<C> {
        ConnectionTableView { connections: self.connections@, disconnected: self.disconnected@ }
    }
}

impl<C> ConnectionTableView<C> {
    /// No peer is both connected and disconnected.
    pub open spec fn wf(self) -> bool {
        self.connections.dom().disjoint(self.disconnected.dom())
    }

    /// Every channel the node has, connected or not.
    pub open spec fn all_channels(self) -> Map<NodeId, C> {
        self.connections.union_prefer_right(self.disconnected)
    }

    /// The table after cutting the node off from `peer`: the peer's channel, if it had
    /// one, moves from the connected ones to the disconnected ones.
    pub open spec fn after_disconnect(self, peer: NodeId) -> Self {
        if self.connections.contains_key(peer) {
            ConnectionTableView {
                connections: self.connections.remove(peer),
                disconnected: self.disconnected.insert(peer, self.connections[peer]),
            }
        } else {
            self
        }
    }

    /// The table after reconnecting `peer`: its kept channel, if any, moves back to the
    /// connected ones.
    pub open spec fn after_reconnect(self, peer: NodeId) -> Self {
        if self.disconnected.contains_key(peer) {
            ConnectionTableView {
                connections: self.connections.insert(peer, self.disconnected[peer]),
                disconnected: self.disconnected.remove(peer),
            }
        } else {
            self
        }
    }

    /// The table after cutting the node off from each of `peers` in turn.
    pub open spec fn after_disconnects(self, peers: Seq<NodeId>) -> Self
        decreases peers.len(),
    {
        if peers.len() == 0 {
            self
        } else {
            self.after_disconnects(peers.drop_last()).after_disconnect(peers.last())
        }
    }

    /// The table after reconnecting every peer: all channels are connected again.
    pub open spec fn after_reconnect_all(self) -> Self {
        ConnectionTableView { connections: self.all_channels(), disconnected: Map::empty() }
    }
}

impl<C> ConnectionTable<C> {
    /// No peer is both connected and disconnected.
    #[verifier::type_invariant]
    spec fn inv(self) -> bool {
        self.connections@.dom().disjoint(self.disconnected@.dom())
    }

    /// Moves both maps out of the table, leaving it empty.
    fn take_maps(&mut self) -> (r: (HashMap<NodeId, C>, HashMap<NodeId, C>))
        ensures
            r.0@ == old(self)@.connections,
            r.1@ == old(self)@.disconnected,
            final(self)@.connections == Map::<NodeId, C>::empty(),
            final(self)@.disconnected == Map::<NodeId, C>::empty(),
    {
        let mut connections = HashMap::new();
        std::mem::swap(&mut connections, &mut self.connections);
        let mut disconnected = HashMap::new();
        std::mem::swap(&mut disconnected, &mut self.disconnected);
        (connections, disconnected)
    }

    /// Puts both maps back into an empty table.
    fn put_maps(&mut self, connections: HashMap<NodeId, C>, disconnected: HashMap<NodeId, C>)
        requires
            old(self)@.connections == Map::<NodeId, C>::empty(),
            old(self)@.disconnected == Map::<NodeId, C>::empty(),
            connections@.dom().disjoint(disconnected@.dom()),
        ensures
            final(self)@.connections == connections@,
            final(self)@.disconnected == disconnected@,
    {
        self.disconnected = disconnected;
        self.connections = connections;
    }

    /// The table of a node connected over the channels `connections`, none disconnected.
    pub fn new(connections: HashMap<NodeId, C>) -> (r: Self)
        ensures
            r@.connections == connections@,
            r@.disconnected == Map::<NodeId, C>::empty(),
            r@.wf(),
    {
        let disconnected = HashMap::new();
        ConnectionTable { connections, disconnected }
    }

    /// How many peers the node is connected to.
    pub fn len(&self) -> (r: usize)
        ensures
            r == self@.connections.len(),
    {
        self.connections.len()
    }

    /// How many peers the node is cut off from.
    pub fn disconnected_len(&self) -> (r: usize)
        ensures
            r == self@.disconnected.len(),
    {
        self.disconnected.len()
    }

    /// The peers the node is connected to, each once.
    pub fn peers(&self) -> (r: Vec<NodeId>)
        ensures
            r@.no_duplicates(),
            forall|x: NodeId| r@.contains(x) <==> self@.connections.contains_key(x),
    {
        let ghost all = spec_keys_iter(&self.connections).remaining().unref();
        proof {
            let rem = spec_keys_iter(&self.connections).remaining();
            assert(rem.unref().to_set() == self.connections@.dom());
            assert(rem.no_duplicates());
            assert forall|x: NodeId| self.connections@.contains_key(x) <==> all.contains(x) by {
                assert(all.to_set().contains(x) <==> all.contains(x));
            }
            assert forall|a: int, b: int| 0 <= a < b < all.len() implies all[a] != all[b] by {
                assert(all[a] == *rem[a]);
                assert(all[b] == *rem[b]);
            }
        }
        let mut out: Vec<NodeId> = Vec::new();
        for k in it: self.connections.keys()
            invariant
                it.seq().unref() == all,
                out@ == all.take(it.index()),
        {
            out.push(*k);
            proof {
                assert(all.take(it.index() + 1) =~= all.take(it.index()).push(*k));
            }
        }
        proof {
            assert(out@ =~= all);
        }
        out
    }

    /// Whether the node is connected to `peer`.
    pub fn contains_key(&self, peer: NodeId) -> (r: bool)
        ensures
            r == self@.connections.contains_key(peer),
    {
        self.connections.contains_key(&peer)
    }

    /// The channel a message to `receiver` goes out on; none when the node is not
    /// connected to it, and the message is then dropped.
    pub fn route(&self, receiver: NodeId) -> (r: Option<&C>)
        ensures
            match r {
                Some(c) => self@.connections.contains_key(receiver) && *c
                    == self@.connections[receiver],
                None => !self@.connections.contains_key(receiver),
            },
    {
        self.connections.get(&receiver)
    }

    /// Cuts the node off from `peer`, keeping the channel for a later reconnection.
    pub fn disconnect(&mut self, peer: NodeId)
        ensures
            final(self)@ == old(self)@.after_disconnect(peer),
            final(self)@.wf(),
    {
        proof {
            use_type_invariant(&*self);
        }
        let (mut connections, mut disconnected) = self.take_maps();
        match connections.remove(&peer) {
            Some(c) => {
                disconnected.insert(peer, c);
            },
            None => {},
        }
        self.put_maps(connections, disconnected);
        proof {
            assert(self@.connections =~= old(self)@.after_disconnect(peer).connections);
            assert(self@.disconnected =~= old(self)@.after_disconnect(peer).disconnected);
        }
    }

    /// Connects the node to `peer` again if it was cut off from it.
    pub fn reconnect(&mut self, peer: NodeId)
        ensures
            final(self)@ == old(self)@.after_reconnect(peer),
            final(self)@.wf(),
    {
        proof {
            use_type_invariant(&*self);
        }
        let (mut connections, mut disconnected) = self.take_maps();
        match disconnected.remove(&peer) {
            Some(c) => {
                connections.insert(peer, c);
            },
            None => {},
        }
        self.put_maps(connections, disconnected);
        proof {
            assert(self@.connections =~= old(self)@.after_reconnect(peer).connections);
            assert(self@.disconnected =~= old(self)@.after_reconnect(peer).disconnected);
        }
    }

    /// Connects the node again to every peer it was cut off from.
    pub fn reconnect_all(&mut self)
        ensures
            final(self)@ == old(self)@.after_reconnect_all(),
            final(self)@.wf(),
    {
        proof {
            use_type_invariant(&*self);
        }
        let (mut connections, mut disconnected) = self.take_maps();
        let ghost old_conn = connections@;
        let ghost old_disc = disconnected@;
        let ghost all_peers = spec_keys_iter(&disconnected).remaining().unref();
        proof {
            let r = spec_keys_iter(&disconnected).remaining();
            assert(r.unref().to_set() == old_disc.dom());
            assert(r.no_duplicates());
            assert forall|x: NodeId| old_disc.contains_key(x) <==> all_peers.contains(x) by {
                assert(all_peers.to_set().contains(x) <==> all_peers.contains(x));
            }
            assert forall|a: int, b: int| 0 <= a < b < all_peers.len() implies all_peers[a]
                != all_peers[b] by {
                assert(all_peers[a] == *r[a]);
                assert(all_peers[b] == *r[b]);
            }
        }
        let mut peers: Vec<NodeId> = Vec::new();
        for k in it: disconnected.keys()
            invariant
                it.seq().unref() == all_peers,
                peers@ == all_peers.take(it.index()),
        {
            peers.push(*k);
            proof {
                assert(all_peers.take(it.index() + 1) =~= all_peers.take(it.index()).push(*k));
            }
        }
        proof {
            assert(peers@ =~= all_peers);
        }
        let n = peers.len();
        let mut j: usize = 0;
        while j < n
            invariant
                0 <= j <= n,
                n == peers@.len(),
                peers@.no_duplicates(),
                forall|x: NodeId| old_disc.contains_key(x) <==> peers@.contains(x),
                old_conn.dom().disjoint(old_disc.dom()),
                forall|x: NodeId|
                    #![trigger disconnected@.contains_key(x)]
                    disconnected@.contains_key(x) <==> (old_disc.contains_key(x)
                        && !peers@.take(j as int).contains(x)),
                forall|x: NodeId|
                    #![trigger disconnected@.contains_key(x)]
                    disconnected@.contains_key(x) ==> disconnected@[x] == old_disc[x],
                forall|x: NodeId|
                    #![trigger connections@.contains_key(x)]
                    connections@.contains_key(x) <==> (old_conn.contains_key(x)
                        || peers@.take(j as int).contains(x)),
                forall|x: NodeId|
                    #![trigger connections@.contains_key(x)]
                    connections@.contains_key(x) ==> connections@[x] == (
                    if peers@.take(j as int).contains(x) {
                        old_disc[x]
                    } else {
                        old_conn[x]
                    }),
            decreases n - j,
        {
            let p = peers[j];
            proof {
                assert(peers@.take(j + 1) =~= peers@.take(j as int).push(p));
                assert(!peers@.take(j as int).contains(p)) by {
                    if peers@.take(j as int).contains(p) {
                        let a = choose|a: int| 0 <= a < j && peers@.take(j as int)[a] == p;
                        assert(peers@[a] == peers@[j as int]);
                    }
                }
                assert(peers@.contains(p)) by {
                    assert(peers@[j as int] == p);
                }
                let t0 = peers@.take(j as int);
                let t1 = peers@.take(j + 1);
                assert forall|x: NodeId| t1.contains(x) <==> (t0.contains(x) || x == p) by {
                    if t1.contains(x) {
                        let a = choose|a: int| 0 <= a < t1.len() && t1[a] == x;
                        if a < j {
                            assert(t0[a] == x);
                        }
                    }
                    if t0.contains(x) {
                        let a = choose|a: int| 0 <= a < t0.len() && t0[a] == x;
                        assert(t1[a] == x);
                    }
                    if x == p {
                        assert(t1[j as int] == x);
                    }
                }
            }
            match disconnected.remove(&p) {
                Some(c) => {
                    connections.insert(p, c);
                },
                None => {},
            }
            j = j + 1;
        }
        proof {
            assert(peers@.take(n as int) =~= peers@);
            assert(connections@ =~= old(self)@.after_reconnect_all().connections);
            assert(disconnected@ =~= Map::<NodeId, C>::empty());
        }
        self.put_maps(connections, disconnected);
    }
}

/// Cutting a node off from a peer loses no channel: the peer's channel is kept among the
/// disconnected ones, no peer ends up both connected and disconnected, and nothing is
/// routed to the peer any more.
pub proof fn lemma_disconnect_keeps_channels<C>(t: ConnectionTableView<C>, peer: NodeId)
    requires
        t.wf(),
    ensures
        t.after_disconnect(peer).wf(),
        t.after_disconnect(peer).all_channels() == t.all_channels(),
        !t.after_disconnect(peer).connections.contains_key(peer),
{
    assert(t.after_disconnect(peer).all_channels() =~= t.all_channels());
}

/// Reconnecting every peer undoes a disconnection: cutting the node off from a peer and
/// then reconnecting all peers gives the same table as reconnecting all peers right away.
pub proof fn lemma_reconnect_all_undoes_disconnect<C>(t: ConnectionTableView<C>, peer: NodeId)
    requires
        t.wf(),
    ensures
        t.after_disconnect(peer).after_reconnect_all() == t.after_reconnect_all(),
{
    lemma_disconnect_keeps_channels(t, peer);
    assert(t.after_disconnect(peer).after_reconnect_all().connections
        =~= t.after_reconnect_all().connections);
}

/// Reconnecting a peer undoes cutting the node off from it, when the node kept no earlier
/// channel to that peer.
pub proof fn lemma_reconnect_undoes_disconnect<C>(t: ConnectionTableView<C>, peer: NodeId)
    requires
        t.wf(),
        !t.disconnected.contains_key(peer),
    ensures
        t.after_disconnect(peer).after_reconnect(peer) == t,
{
    if t.connections.contains_key(peer) {
        assert(t.after_disconnect(peer).after_reconnect(peer).connections =~= t.connections);
        assert(t.after_disconnect(peer).after_reconnect(peer).disconnected =~= t.disconnected);
    }
}

/// Cutting a node off from a connected peer leaves it with one connection fewer, and
/// cutting it off from a peer it is not connected to changes nothing.
pub proof fn lemma_disconnect_count<C>(t: ConnectionTableView<C>, peer: NodeId)
    requires
        t.connections.dom().finite(),
    ensures
        t.connections.contains_key(peer) ==> t.after_disconnect(peer).connections.len()
            == t.connections.len() - 1,
        !t.connections.contains_key(peer) ==> t.after_disconnect(peer) == t,
{
}

/// Reconnecting every peer undoes any sequence of disconnections: after cutting the node
/// off from any peers, in any order, reconnecting all of them gives the same table as
/// reconnecting all right away; for a table that had nothing disconnected, that is the
/// table it started as.
pub proof fn lemma_reconnect_all_undoes_disconnects<C>(
    t: ConnectionTableView<C>,
    peers: Seq<NodeId>,
)
    requires
        t.wf(),
    ensures
        t.after_disconnects(peers).wf(),
        t.after_disconnects(peers).after_reconnect_all() == t.after_reconnect_all(),
        t.disconnected == Map::<NodeId, C>::empty() ==> t.after_disconnects(
            peers,
        ).after_reconnect_all() == t,
    decreases peers.len(),
{
    if peers.len() > 0 {
        lemma_reconnect_all_undoes_disconnects(t, peers.drop_last());
        let t1 = t.after_disconnects(peers.drop_last());
        lemma_reconnect_all_undoes_disconnect(t1, peers.last());
        lemma_disconnect_keeps_channels(t1, peers.last());
    }
    if t.disconnected == Map::<NodeId, C>::empty() {
        assert(t.after_reconnect_all().connections =~= t.connections);
        assert(t.after_reconnect_all().disconnected =~= t.disconnected);
    }
}

/// Reconnecting a peer never cuts a connection: every connected channel stays; a kept
/// channel to the peer, if there is one, becomes connected and leaves the disconnected
/// ones; and reconnecting a peer that is not disconnected changes nothing.
pub proof fn lemma_reconnect_only_restores<C>(t: ConnectionTableView<C>, peer: NodeId)
    requires
        t.wf(),
    ensures
        t.connections.submap_of(t.after_reconnect(peer).connections),
        t.after_reconnect(peer).disconnected.submap_of(t.disconnected),
        !t.disconnected.contains_key(peer) ==> t.after_reconnect(peer) == t,
        t.disconnected.contains_key(peer) ==> {
            &&& t.after_reconnect(peer).connections.contains_key(peer)
            &&& t.after_reconnect(peer).connections[peer] == t.disconnected[peer]
            &&& t.after_reconnect(peer).connections.dom() == t.connections.dom().insert(peer)
            &&& !t.after_reconnect(peer).disconnected.contains_key(peer)
            &&& t.after_reconnect(peer).disconnected.dom() == t.disconnected.dom().remove(peer)
        },
{
    if t.disconnected.contains_key(peer) {
        assert(t.after_reconnect(peer).connections.dom() =~= t.connections.dom().insert(peer));
        assert(t.after_reconnect(peer).disconnected.dom() =~= t.disconnected.dom().remove(peer));
    }
}

/// Disconnecting a peer never connects anything: the connections lose exactly that peer,
/// every kept channel stays kept, and the peer's channel, if it was connected, is kept.
pub proof fn lemma_disconnect_only_cuts<C>(t: ConnectionTableView<C>, peer: NodeId)
    requires
        t.wf(),
    ensures
        t.after_disconnect(peer).connections.submap_of(t.connections),
        t.after_disconnect(peer).connections.dom() == t.connections.dom().remove(peer),
        t.disconnected.submap_of(t.after_disconnect(peer).disconnected),
        t.connections.contains_key(peer) ==> t.after_disconnect(peer).disconnected.contains_key(
            peer,
        ) && t.after_disconnect(peer).disconnected[peer] == t.connections[peer],
        !t.connections.contains_key(peer) ==> t.after_disconnect(peer) == t,
{
    assert(t.after_disconnect(peer).connections.dom() =~= t.connections.dom().remove(peer));
}

/// Reconnecting every peer connects each channel the node has, the connected ones and
/// the kept ones alike, and nothing else, and leaves nothing disconnected.
pub proof fn lemma_reconnect_all_connects_every_channel<C>(t: ConnectionTableView<C>)
    requires
        t.wf(),
    ensures
        t.after_reconnect_all().disconnected.dom().len() == 0,
        forall|x: NodeId|
            #[trigger] t.after_reconnect_all().connections.contains_key(x) <==> (
            t.connections.contains_key(x) || t.disconnected.contains_key(x)),
        forall|x: NodeId|
            t.connections.contains_key(x) ==> #[trigger] t.after_reconnect_all().connections[x]
                == t.connections[x],
        forall|x: NodeId|
            t.disconnected.contains_key(x) ==> #[trigger] t.after_reconnect_all().connections[x]
                == t.disconnected[x],
{
    assert(t.after_reconnect_all().disconnected.dom() =~= Set::<NodeId>::empty());
}

} // verus!
