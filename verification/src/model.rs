//! The ring as a mathematical value: which node holds which position, and how
//! many nodes have been counted in.

use crate::digest::hash_of;
use crate::error::ConsistentError;
use crate::node::ToBytes;
use crate::placement::lemma_replica_keys_step;
use crate::placement::replica_key;
use crate::placement::replica_keys;
use crate::placement::replica_keys_upto;
use crate::placement::representative_key;
use crate::placement::REPLICAS;
use crate::successor::successor;
use vstd::prelude::*;
use vstd::set_lib::lemma_len_subset;

verus! {

/// `entries`, with the first `n` replica positions of `node` given to it.
/// A position that another node held is taken over.
pub open spec fn place<N: ToBytes>(entries: Map<u64, N>, node: N, n: u32) -> Map<u64, N> {
    Map::new(
        |k: u64| entries.contains_key(k) || replica_keys_upto(node.encoding(), n).contains(k),
        |k: u64|
            if replica_keys_upto(node.encoding(), n).contains(k) {
                node
            } else {
                entries[k]
            },
    )
}

/// `entries`, without the first `n` replica positions of the node with the
/// bytes `node_bytes`, whoever holds them.
pub open spec fn displace<N>(entries: Map<u64, N>, node_bytes: Seq<u8>, n: u32) -> Map<u64, N> {
    entries.remove_keys(replica_keys_upto(node_bytes, n))
}

/// Every position is one of the replica positions of the node that holds it.
pub open spec fn anchored<N: ToBytes>(entries: Map<u64, N>) -> bool {
    forall|k: u64| #[trigger]
        entries.contains_key(k) ==> replica_keys(entries[k].encoding()).contains(k)
}

/// The abstract state of a ring.
pub struct RingView<N> {
    /// The node at each occupied position.
    pub entries: Map<u64, N>,
    /// The number of nodes counted as present.
    pub count: nat,
}

impl<N: ToBytes> RingView<N> {
    /// The ring with no node.
    pub open spec fn empty() -> Self {
        RingView { entries: Map::empty(), count: 0 }
    }

    /// The occupied positions are finitely many, and each is one of the
    /// replica positions of its node.
    pub open spec fn wf(self) -> bool {
        &&& self.entries.dom().finite()
        &&& anchored(self.entries)
    }

    /// Whether the ring takes a node with these bytes to be present: its
    /// representative position is occupied.
    pub open spec fn holds(self, node_bytes: Seq<u8>) -> bool {
        self.entries.contains_key(representative_key(node_bytes))
    }

    /// The ring after `node` was added: unchanged where the node is held
    /// already, else with all its positions given to it and the count raised.
    pub open spec fn with_node(self, node: N) -> Self {
        if self.holds(node.encoding()) {
            self
        } else {
            RingView { entries: place(self.entries, node, REPLICAS), count: self.count + 1 }
        }
    }

    /// The ring after `node` was removed: unchanged where the node is not
    /// held, else with all its positions vacated and the count lowered, but
    /// not below zero.
    pub open spec fn without_node(self, node: N) -> Self {
        if self.holds(node.encoding()) {
            RingView {
                entries: displace(self.entries, node.encoding(), REPLICAS),
                count: if self.count > 0 {
                    (self.count - 1) as nat
                } else {
                    0
                },
            }
        } else {
            self
        }
    }

    /// The position that serves an item with these bytes.
    pub open spec fn position_of(self, item_bytes: Seq<u8>) -> u64 {
        successor(self.entries.dom(), hash_of(item_bytes))
    }

    /// The answer to a lookup of an item with these bytes.
    pub open spec fn lookup(self, item_bytes: Seq<u8>) -> Result<N, ConsistentError> {
        if self.entries.dom().is_empty() {
            Err(ConsistentError::NoServerNodes)
        } else {
            Ok(self.entries[self.position_of(item_bytes)])
        }
    }
}

/// Placing no replica changes nothing.
pub proof fn lemma_place_none<N: ToBytes>(entries: Map<u64, N>, node: N)
    ensures
        place(entries, node, 0) == entries,
{
    assert(place(entries, node, 0) =~= entries);
}

/// Placing one replica more is one insertion.
pub proof fn lemma_place_step<N: ToBytes>(entries: Map<u64, N>, node: N, n: u32)
    requires
        n < u32::MAX,
    ensures
        place(entries, node, (n + 1) as u32) == place(entries, node, n).insert(
            replica_key(node.encoding(), n),
            node,
        ),
{
    lemma_replica_keys_step(node.encoding(), n);
    assert(place(entries, node, (n + 1) as u32) =~= place(entries, node, n).insert(
        replica_key(node.encoding(), n),
        node,
    ));
}

/// Vacating no replica changes nothing.
pub proof fn lemma_displace_none<N>(entries: Map<u64, N>, node_bytes: Seq<u8>)
    ensures
        displace(entries, node_bytes, 0) == entries,
{
    assert(displace(entries, node_bytes, 0) =~= entries);
}

/// Vacating one replica more is one removal.
pub proof fn lemma_displace_step<N>(entries: Map<u64, N>, node_bytes: Seq<u8>, n: u32)
    requires
        n < u32::MAX,
    ensures
        displace(entries, node_bytes, (n + 1) as u32) == displace(entries, node_bytes, n).remove(
            replica_key(node_bytes, n),
        ),
{
    lemma_replica_keys_step(node_bytes, n);
    assert(displace(entries, node_bytes, (n + 1) as u32) =~= displace(
        entries,
        node_bytes,
        n,
    ).remove(replica_key(node_bytes, n)));
}

/// Giving a node some of its positions keeps the occupied positions finite,
/// and each with a node that it belongs to.
pub proof fn lemma_place_wf<N: ToBytes>(entries: Map<u64, N>, node: N, n: u32)
    requires
        entries.dom().finite(),
        anchored(entries),
        n <= REPLICAS,
    ensures
        place(entries, node, n).dom().finite(),
        anchored(place(entries, node, n)),
    decreases n,
{
    if n == 0 {
        lemma_place_none(entries, node);
    } else {
        let fewer = (n - 1) as u32;
        lemma_place_wf(entries, node, fewer);
        lemma_place_step(entries, node, fewer);
        lemma_replica_keys_step(node.encoding(), fewer);
    }
}

/// Vacating positions keeps the occupied positions finite, and each of the
/// others with its node.
pub proof fn lemma_displace_wf<N: ToBytes>(entries: Map<u64, N>, node_bytes: Seq<u8>, n: u32)
    requires
        entries.dom().finite(),
        anchored(entries),
    ensures
        displace(entries, node_bytes, n).dom().finite(),
        anchored(displace(entries, node_bytes, n)),
{
    lemma_len_subset(displace(entries, node_bytes, n).dom(), entries.dom());
}

impl<N: ToBytes> RingView<N> {
    /// Adding a node keeps a ring well formed.
    pub proof fn lemma_with_node_wf(self, node: N)
        requires
            self.wf(),
        ensures
            self.with_node(node).wf(),
    {
        lemma_place_wf(self.entries, node, REPLICAS);
    }

    /// Removing a node keeps a ring well formed.
    pub proof fn lemma_without_node_wf(self, node: N)
        requires
            self.wf(),
        ensures
            self.without_node(node).wf(),
    {
        lemma_displace_wf(self.entries, node.encoding(), REPLICAS);
    }

    /// Adding a node that the ring holds already changes nothing; so adding
    /// a node twice is adding it once.
    pub proof fn lemma_with_node_idempotent(self, node: N, again: N)
        requires
            node.encoding() == again.encoding(),
        ensures
            self.with_node(node).holds(node.encoding()),
            self.with_node(node).with_node(again) == self.with_node(node),
    {
        // the representative position is among those that the node is given
        assert(replica_keys(node.encoding()).contains(representative_key(node.encoding())));
    }

    /// Removing a node that the ring does not hold changes nothing; so
    /// removing a node twice is removing it once.
    pub proof fn lemma_without_node_idempotent(self, node: N, again: N)
        requires
            node.encoding() == again.encoding(),
        ensures
            !self.without_node(node).holds(node.encoding()),
            !self.holds(node.encoding()) ==> self.without_node(node) == self,
            self.without_node(node).without_node(again) == self.without_node(node),
    {
        // the representative position is among those that are vacated
        assert(replica_keys(node.encoding()).contains(representative_key(node.encoding())));
    }
}

} // verus!
