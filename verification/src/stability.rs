//! What a lookup answers, and how little a change of the ring disturbs it.

use crate::digest::hash_of;
use crate::error::ConsistentError;
use crate::model::RingView;
use crate::node::ToBytes;
use crate::placement::replica_key;
use crate::placement::replica_keys;
use crate::placement::REPLICAS;
use crate::successor::is_least;
use crate::successor::lemma_serves_among_fewer;
use crate::successor::lemma_serves_is_successor;
use crate::successor::lemma_successor_serves;
use crate::successor::lemma_successor_wraps;
use crate::successor::serves;
use vstd::prelude::*;

verus! {

impl<N: ToBytes> RingView<N> {
    /// On the empty ring every lookup fails with `NoServerNodes`.
    pub proof fn lemma_lookup_on_empty(item_bytes: Seq<u8>)
        ensures
            Self::empty().lookup(item_bytes) == Err::<N, ConsistentError>(
                ConsistentError::NoServerNodes,
            ),
    {
    }

    /// A lookup fails exactly on a ring without an occupied position, and
    /// then with `NoServerNodes`.
    pub proof fn lemma_lookup_fails_iff_empty(self, item_bytes: Seq<u8>)
        ensures
            self.lookup(item_bytes) is Err <==> self.entries.dom().is_empty(),
            self.lookup(item_bytes) is Err ==> self.lookup(item_bytes) == Err::<
                N,
                ConsistentError,
            >(ConsistentError::NoServerNodes),
    {
    }

    /// Once a node was added, every lookup succeeds.
    pub proof fn lemma_lookup_after_addition_succeeds(self, added: N, item_bytes: Seq<u8>)
        ensures
            self.with_node(added).holds(added.encoding()),
            self.with_node(added).lookup(item_bytes) is Ok,
    {
        self.lemma_with_node_idempotent(added, added);
    }

    /// On a settled ring, a lookup succeeds exactly if the count is not zero.
    pub proof fn lemma_lookup_succeeds_iff_counted(self, item_bytes: Seq<u8>)
        requires
            self.settled(),
        ensures
            self.lookup(item_bytes) is Ok <==> self.count > 0,
    {
        self.lemma_settled_empty_iff_zero();
    }

    /// The answer to a lookup depends on the ring through its occupied
    /// positions alone, and on the item through its bytes alone: the same
    /// positions and the same bytes give the same answer.
    pub proof fn lemma_lookup_deterministic(self, other: Self, a: N, b: N)
        requires
            self.entries == other.entries,
            a.encoding() == b.encoding(),
        ensures
            self.lookup(a.encoding()) == other.lookup(b.encoding()),
    {
    }

    /// On a well-formed ring that is not empty, a lookup answers with a member
    /// of the ring: the node at the position that serves the item's hash.
    pub proof fn lemma_lookup_answers_member(self, item_bytes: Seq<u8>)
        requires
            self.wf(),
            !self.entries.dom().is_empty(),
        ensures
            serves(self.entries.dom(), hash_of(item_bytes), self.position_of(item_bytes)),
            self.lookup(item_bytes) == Ok::<N, ConsistentError>(
                self.entries[self.position_of(item_bytes)],
            ),
            self.members().contains(self.entries[self.position_of(item_bytes)].encoding()),
    {
        lemma_successor_serves(self.entries.dom(), hash_of(item_bytes));
        let pos = self.position_of(item_bytes);
        assert(self.held_by(pos, self.entries[pos].encoding()));
    }

    /// An item whose hash lies beyond every occupied position is served by
    /// the node at the smallest occupied position.
    pub proof fn lemma_lookup_wraps_around(self, item_bytes: Seq<u8>)
        requires
            self.wf(),
            !self.entries.dom().is_empty(),
            forall|k: u64| self.entries.contains_key(k) ==> k < hash_of(item_bytes),
        ensures
            is_least(self.entries.dom(), self.position_of(item_bytes)),
            self.lookup(item_bytes) == Ok::<N, ConsistentError>(
                self.entries[self.position_of(item_bytes)],
            ),
    {
        lemma_successor_wraps(self.entries.dom(), hash_of(item_bytes));
    }

    /// On a ring with a single member, every lookup answers with a node that
    /// has that member's bytes.
    pub proof fn lemma_lookup_with_one_member(self, item_bytes: Seq<u8>, only: Seq<u8>)
        requires
            self.wf(),
            !self.entries.dom().is_empty(),
            forall|b: Seq<u8>| self.members().contains(b) ==> b == only,
        ensures
            self.lookup(item_bytes) is Ok,
            self.lookup(item_bytes).unwrap().encoding() == only,
    {
        self.lemma_lookup_answers_member(item_bytes);
    }

    /// Removing a node does not disturb an item that another node served:
    /// where no position of the removed node was held by that other node,
    /// the item's lookup gives what it gave before.
    pub proof fn lemma_lookup_survives_removal(self, gone: N, item_bytes: Seq<u8>)
        requires
            self.wf(),
            self.admits(gone.encoding()),
            self.lookup(item_bytes) is Ok,
            self.lookup(item_bytes).unwrap().encoding() != gone.encoding(),
        ensures
            self.without_node(gone).lookup(item_bytes) == self.lookup(item_bytes),
    {
        let h = hash_of(item_bytes);
        let keys = self.entries.dom();
        let pos = self.position_of(item_bytes);
        self.lemma_lookup_answers_member(item_bytes);
        if self.holds(gone.encoding()) {
            let after = self.without_node(gone);
            if replica_keys(gone.encoding()).contains(pos) {
                // then the node that is removed would have served the item
                let i = choose|i: u32| i < REPLICAS && pos == replica_key(gone.encoding(), i);
                assert(self.held_by(replica_key(gone.encoding(), i), gone.encoding()));
            }
            assert(after.entries.contains_key(pos));
            lemma_serves_among_fewer(keys, after.entries.dom(), h, pos);
            lemma_serves_is_successor(after.entries.dom(), h, pos);
        }
    }

    /// Once a node that the ring held is removed, no lookup answers with it.
    pub proof fn lemma_lookup_leaves_removed(self, gone: N, item_bytes: Seq<u8>)
        requires
            self.wf(),
            self.holds(gone.encoding()),
        ensures
            !self.without_node(gone).members().contains(gone.encoding()),
            self.without_node(gone).lookup(item_bytes) is Ok ==> self.without_node(gone).lookup(
                item_bytes,
            ).unwrap().encoding() != gone.encoding(),
    {
        let after = self.without_node(gone);
        self.lemma_without_node_wf(gone);
        if after.members().contains(gone.encoding()) {
            // a position that it still held would have been vacated
            let k = choose|k: u64| after.held_by(k, gone.encoding());
            assert(replica_keys(self.entries[k].encoding()).contains(k));
        }
        if !after.entries.dom().is_empty() {
            after.lemma_lookup_answers_member(item_bytes);
        }
    }

    /// Removing a node moves only the items that it served: on a well-formed
    /// ring on which every node holds all of its positions, if one item is
    /// served by `first` and another by a different node, then after `first`
    /// is removed the one item is served by some other node, and the other
    /// item by the node that served it before.
    pub proof fn lemma_removal_moves_only_its_items(
        self,
        first: N,
        item1_bytes: Seq<u8>,
        item2_bytes: Seq<u8>,
    )
        requires
            self.wf(),
            self.intact(),
            self.lookup(item1_bytes) == Ok::<N, ConsistentError>(first),
            self.lookup(item2_bytes) is Ok,
            self.lookup(item2_bytes).unwrap().encoding() != first.encoding(),
        ensures
            self.without_node(first).lookup(item1_bytes) is Ok,
            self.without_node(first).lookup(item1_bytes).unwrap().encoding() != first.encoding(),
            self.without_node(first).lookup(item2_bytes) == self.lookup(item2_bytes),
    {
        let b = first.encoding();
        let pos1 = self.position_of(item1_bytes);
        self.lemma_lookup_answers_member(item1_bytes);
        // `first` holds the position that serves the first item, and so all
        // of its positions
        assert forall|i: u32|
            i < REPLICAS && self.entries.contains_key(
                #[trigger] replica_key(b, i),
            ) implies self.held_by(replica_key(b, i), b) by {
            assert(self.held_by(replica_key(self.entries[pos1].encoding(), i), b));
        }
        self.lemma_member_iff_held(b);
        self.lemma_lookup_survives_removal(first, item2_bytes);
        self.lemma_lookup_leaves_removed(first, item1_bytes);
    }

    /// Adding a node moves items to that node only: on a well-formed ring that
    /// is not empty, an item is served after the addition either as it was
    /// before, or by the node that was added.
    pub proof fn lemma_addition_moves_only_to_new(self, added: N, item_bytes: Seq<u8>)
        requires
            self.wf(),
            !self.entries.dom().is_empty(),
        ensures
            self.with_node(added).lookup(item_bytes) == self.lookup(item_bytes)
                || self.with_node(added).lookup(item_bytes) == Ok::<N, ConsistentError>(added),
    {
        let h = hash_of(item_bytes);
        let after = self.with_node(added);
        if !self.holds(added.encoding()) {
            self.lemma_with_node_wf(added);
            after.lemma_lookup_answers_member(item_bytes);
            let pos = after.position_of(item_bytes);
            if !replica_keys(added.encoding()).contains(pos) {
                // a position that was occupied before serves as it did
                assert(self.entries.contains_key(pos));
                lemma_serves_among_fewer(after.entries.dom(), self.entries.dom(), h, pos);
                lemma_serves_is_successor(self.entries.dom(), h, pos);
            }
        }
    }
}

} // verus!
