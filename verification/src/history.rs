//! The ring as the outcome of the additions and removals made to it.

use crate::model::RingView;
use crate::node::ToBytes;
use crate::placement::replica_key;
use crate::placement::replica_keys;
use crate::placement::REPLICAS;
use vstd::prelude::*;

verus! {

/// One change made to a ring.
pub enum Change<N> {
    /// The node is added.
    Add(N),
    /// The node is removed.
    Remove(N),
}

impl<N: ToBytes> Change<N> {
    /// The bytes of the node that the change is about.
    pub open spec fn node_bytes(self) -> Seq<u8> {
        match self {
            Change::Add(node) => node.encoding(),
            Change::Remove(node) => node.encoding(),
        }
    }

    /// The ring after the change.
    pub open spec fn apply(self, ring: RingView<N>) -> RingView<N> {
        match self {
            Change::Add(node) => ring.with_node(node),
            Change::Remove(node) => ring.without_node(node),
        }
    }
}

/// The ring that results from making the changes, in their order, to the
/// empty ring.
pub open spec fn replay<N: ToBytes>(changes: Seq<Change<N>>) -> RingView<N>
    decreases changes.len(),
{
    if changes.len() == 0 {
        RingView::empty()
    } else {
        changes.last().apply(replay(changes.drop_last()))
    }
}

/// The nodes that were added and not removed since, each by its bytes.
pub open spec fn remaining<N: ToBytes>(changes: Seq<Change<N>>) -> Set<Seq<u8>>
    decreases changes.len(),
{
    if changes.len() == 0 {
        Set::empty()
    } else {
        match changes.last() {
            Change::Add(node) => remaining(changes.drop_last()).insert(node.encoding()),
            Change::Remove(node) => remaining(changes.drop_last()).remove(node.encoding()),
        }
    }
}

/// The nodes that the changes add, each by its bytes.
pub open spec fn added<N: ToBytes>(changes: Seq<Change<N>>) -> Set<Seq<u8>> {
    Set::new(
        |b: Seq<u8>|
            exists|a: int|
                0 <= a < changes.len() && #[trigger] changes[a] is Add && changes[a].node_bytes()
                    == b,
    )
}

/// The nodes that the changes are about, each by its bytes.
pub open spec fn named<N: ToBytes>(changes: Seq<Change<N>>) -> Set<Seq<u8>> {
    Set::new(
        |b: Seq<u8>|
            exists|a: int| 0 <= a < changes.len() && #[trigger] changes[a].node_bytes() == b,
    )
}

/// No two of the nodes share a position.
pub open spec fn apart(nodes: Set<Seq<u8>>) -> bool {
    forall|x: Seq<u8>, y: Seq<u8>, i: u32, j: u32|
        nodes.contains(x) && nodes.contains(y) && i < REPLICAS && j < REPLICAS
            && #[trigger] replica_key(x, i) == #[trigger] replica_key(y, j) ==> x == y
}

/// A node that remains was added, and finitely many remain.
pub proof fn lemma_remaining_was_added<N: ToBytes>(changes: Seq<Change<N>>)
    ensures
        remaining(changes).subset_of(added(changes)),
        added(changes).subset_of(named(changes)),
        remaining(changes).finite(),
    decreases changes.len(),
{
    assert forall|b: Seq<u8>| added(changes).contains(b) implies named(changes).contains(b) by {
        let a = choose|a: int|
            0 <= a < changes.len() && #[trigger] changes[a] is Add && changes[a].node_bytes() == b;
        assert(changes[a].node_bytes() == b);
    }
    if changes.len() > 0 {
        let before = changes.drop_last();
        lemma_remaining_was_added(before);
        assert forall|b: Seq<u8>| remaining(changes).contains(b) implies added(changes).contains(
            b,
        ) by {
            if remaining(before).contains(b) {
                let a = choose|a: int|
                    0 <= a < before.len() && #[trigger] before[a] is Add && before[a].node_bytes()
                        == b;
                assert(changes[a] is Add && changes[a].node_bytes() == b);
            } else {
                let a = changes.len() - 1;
                assert(changes[a] is Add && changes[a].node_bytes() == b);
            }
        }
    }
}

/// Where no two of the nodes concerned share a position, the ring that a
/// sequence of changes leaves is settled, its members are the nodes that
/// were added and not removed since, and its count is their number.
pub proof fn lemma_replay_counts_remaining<N: ToBytes>(changes: Seq<Change<N>>)
    requires
        apart(named(changes)),
    ensures
        replay(changes).settled(),
        replay(changes).members() == remaining(changes),
        replay(changes).count == remaining(changes).len(),
    decreases changes.len(), 0nat,
{
    if changes.len() == 0 {
        RingView::<N>::lemma_empty_settled();
    } else {
        let before = changes.drop_last();
        let last = changes.last();
        assert(changes[changes.len() - 1].node_bytes() == last.node_bytes());
        assert forall|b: Seq<u8>| named(before).contains(b) implies named(changes).contains(
            b,
        ) by {
            let a = choose|a: int| 0 <= a < before.len() && #[trigger] before[a].node_bytes() == b;
            assert(changes[a].node_bytes() == b);
        }
        lemma_replay_admits(before, last.node_bytes());
        match last {
            Change::Add(node) => {
                replay(before).lemma_with_node_settled(node);
            },
            Change::Remove(node) => {
                replay(before).lemma_without_node_settled(node);
            },
        }
    }
}

/// Where a node shares no position with the nodes that the changes are
/// about, the ring that the changes leave admits it.
pub proof fn lemma_replay_admits<N: ToBytes>(changes: Seq<Change<N>>, node_bytes: Seq<u8>)
    requires
        apart(named(changes).insert(node_bytes)),
    ensures
        replay(changes).settled(),
        replay(changes).members() == remaining(changes),
        replay(changes).count == remaining(changes).len(),
        replay(changes).admits(node_bytes),
    decreases changes.len(), 1nat,
{
    lemma_replay_counts_remaining(changes);
    lemma_remaining_was_added(changes);
    let ring = replay(changes);
    assert forall|i: u32|
        i < REPLICAS && ring.entries.contains_key(
            #[trigger] replica_key(node_bytes, i),
        ) implies ring.held_by(replica_key(node_bytes, i), node_bytes) by {
        let k = replica_key(node_bytes, i);
        let holder = ring.entries[k].encoding();
        // the holder was added, and the position is one of its own: the two
        // nodes share it, so they are one
        assert(ring.held_by(k, holder));
        assert(named(changes).contains(holder));
        let j = choose|j: u32| j < REPLICAS && k == replica_key(holder, j);
        assert(replica_key(holder, j) == replica_key(node_bytes, i));
    }
}

/// Removing a node that was never added changes nothing, where no position
/// of it is shared with a node that was.
pub proof fn lemma_remove_never_added<N: ToBytes>(changes: Seq<Change<N>>, node: N)
    requires
        apart(named(changes).insert(node.encoding())),
        !added(changes).contains(node.encoding()),
    ensures
        replay(changes).without_node(node) == replay(changes),
        replay(changes).without_node(node).count == replay(changes).count,
{
    lemma_replay_admits(changes, node.encoding());
    lemma_remaining_was_added(changes);
    replay(changes).lemma_member_iff_held(node.encoding());
}

} // verus!
