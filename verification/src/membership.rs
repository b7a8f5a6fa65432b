//! Which nodes a ring holds, and when its count is their number.
//!
//! Positions come from a hash, so two nodes can be given the same position,
//! and the later one takes it over. Everything here is stated for rings on
//! which that has not happened.

use crate::model::RingView;
use crate::node::ToBytes;
use crate::placement::replica_key;
use crate::placement::replica_keys;
use crate::placement::representative_key;
use crate::placement::INIT_V_IDX;
use crate::placement::REPLICAS;
use vstd::prelude::*;

verus! {

impl<N: ToBytes> RingView<N> {
    /// The position `k` is occupied, by a node with these bytes.
    pub open spec fn held_by(self, k: u64, node_bytes: Seq<u8>) -> bool {
        self.entries.contains_key(k) && self.entries[k].encoding() == node_bytes
    }

    /// The nodes on the ring, each by its bytes.
    pub open spec fn members(self) -> Set<Seq<u8>> {
        Set::new(|b: Seq<u8>| exists|k: u64| self.held_by(k, b))
    }

    /// Every node on the ring holds all of its positions.
    pub open spec fn intact(self) -> bool {
        forall|k: u64, i: u32|
            self.entries.contains_key(k) && i < REPLICAS ==> self.held_by(
                #[trigger] replica_key(self.entries[k].encoding(), i),
                self.entries[k].encoding(),
            )
    }

    /// The count is the number of nodes on the ring.
    pub open spec fn counted(self) -> bool {
        self.members().finite() && self.count == self.members().len()
    }

    /// The ring is well formed, every node on it holds all of its positions,
    /// and the count is their number.
    pub open spec fn settled(self) -> bool {
        self.wf() && self.intact() && self.counted()
    }

    /// No position of the node with these bytes is held by another node.
    pub open spec fn admits(self, node_bytes: Seq<u8>) -> bool {
        forall|i: u32|
            i < REPLICAS && self.entries.contains_key(#[trigger] replica_key(node_bytes, i))
                ==> self.held_by(replica_key(node_bytes, i), node_bytes)
    }

    /// The empty ring is settled and has no member.
    pub proof fn lemma_empty_settled()
        ensures
            Self::empty().settled(),
            Self::empty().members() == Set::<Seq<u8>>::empty(),
    {
    }

    /// A settled ring has no occupied position exactly if its count is zero.
    pub proof fn lemma_settled_empty_iff_zero(self)
        requires
            self.settled(),
        ensures
            self.entries.dom().is_empty() <==> self.count == 0,
    {
        if self.entries.dom().is_empty() {
            assert(self.members() =~= Set::<Seq<u8>>::empty());
        }
        if self.count == 0 {
            self.members().lemma_len0_is_empty();
            if !self.entries.dom().is_empty() {
                let k = choose|k: u64| self.entries.dom().contains(k);
                assert(self.members().contains(self.entries[k].encoding()));
            }
        }
    }

    /// On a ring that admits a node and on which every node holds all of its
    /// positions, the node is a member exactly if its representative position
    /// is occupied.
    pub proof fn lemma_member_iff_held(self, node_bytes: Seq<u8>)
        requires
            self.intact(),
            self.admits(node_bytes),
        ensures
            self.members().contains(node_bytes) <==> self.holds(node_bytes),
    {
        if self.members().contains(node_bytes) {
            // a member holds some position, and so its representative one
            let k = choose|k: u64| self.held_by(k, node_bytes);
            assert(self.held_by(replica_key(self.entries[k].encoding(), INIT_V_IDX), node_bytes));
        }
        if self.holds(node_bytes) {
            // whoever holds the representative position has these bytes
            assert(self.held_by(representative_key(node_bytes), node_bytes));
        }
    }

    /// Adding a node to a settled ring that admits it leaves the ring settled,
    /// with the node among its members, and the count their number.
    pub proof fn lemma_with_node_settled(self, node: N)
        requires
            self.settled(),
            self.admits(node.encoding()),
        ensures
            self.with_node(node).settled(),
            self.with_node(node).members() == self.members().insert(node.encoding()),
            self.with_node(node).count == self.members().insert(node.encoding()).len(),
    {
        let b = node.encoding();
        let after = self.with_node(node);
        self.lemma_member_iff_held(b);
        self.lemma_with_node_wf(node);
        if !self.holds(b) {
            assert(after.held_by(representative_key(b), b));
            assert forall|m: Seq<u8>| self.members().contains(m) implies after.members().contains(
                m,
            ) by {
                // a position of `m` that the new node took was its own before
                let k = choose|k: u64| self.held_by(k, m);
                assert(after.held_by(k, m));
            }
            assert(after.members() =~= self.members().insert(b));
        }
    }

    /// Removing a node from a settled ring that admits it leaves the ring
    /// settled, without the node among its members, and the count their number.
    pub proof fn lemma_without_node_settled(self, node: N)
        requires
            self.settled(),
            self.admits(node.encoding()),
        ensures
            self.without_node(node).settled(),
            self.without_node(node).members() == self.members().remove(node.encoding()),
            self.without_node(node).count == self.members().remove(node.encoding()).len(),
    {
        let b = node.encoding();
        let after = self.without_node(node);
        self.lemma_member_iff_held(b);
        self.lemma_without_node_wf(node);
        if self.holds(b) {
            assert forall|m: Seq<u8>| self.members().contains(m) && m != b implies
                after.members().contains(m) by {
                // no position of `m` was among those vacated
                let k = choose|k: u64| self.held_by(k, m);
                assert(after.held_by(k, m));
            }
            assert(after.members() =~= self.members().remove(b));
        }
    }
}

} // verus!
