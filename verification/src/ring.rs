//! The consistent-hashing ring.

use crate::digest::blake2s;
use crate::digest::digest_prefix;
use crate::digest::hash_of;
use crate::error::ConsistentError;
use crate::model::displace;
use crate::model::lemma_displace_none;
use crate::model::lemma_displace_step;
use crate::model::lemma_place_none;
use crate::model::lemma_place_step;
use crate::model::place;
use crate::model::RingView;
use crate::node::duplicate;
use crate::node::ToBytes;
use crate::placement::be_bytes_u32;
use crate::placement::replica_input;
use crate::placement::replica_key;
use crate::placement::INIT_V_IDX;
use crate::placement::MUL;
use crate::placement::REPLICAS;
use crate::successor::lemma_serves_is_successor;
use crate::successor::serves;
use std::collections::BTreeMap;
use vstd::prelude::*;
use vstd::std_specs::btree::increasing_seq;
use vstd::std_specs::cmp::OrdSpec;
use vstd::std_specs::iter::IteratorSpec;

verus! {

/// A ring of nodes, each at `REPLICAS` positions of the hash space.
pub struct ConsistentHash<Node: ToBytes> {
    /// The node at each occupied position, in ascending order of position.
    nodes: BTreeMap<u64, Node>,
    /// The number of nodes counted as present.
    count: u32,
}

impl<Node: ToBytes> View for ConsistentHash<Node> {
    type V = RingView<Node>;

    closed spec fn view(&self) -> RingView<Node> {
        RingView { entries: self.nodes@, count: self.count as nat }
    }
}

impl<Node: ToBytes> ConsistentHash<Node> {
    /// Creates a ring with no node.
    pub fn new() -> (ring: Self)
        ensures
            ring@ == RingView::<Node>::empty(),
            ring@.wf(),
    {
        ConsistentHash { nodes: BTreeMap::new(), count: 0 }
    }

    /// Encodes `num` as four bytes, most significant first.
    pub fn as_slice_u8_be(num: u32) -> (out: [u8; 4])
        ensures
            out@ == be_bytes_u32(num),
    {
        let b1: u8 = ((num >> 24) & 0xff) as u8;
        let b2: u8 = ((num >> 16) & 0xff) as u8;
        let b3: u8 = ((num >> 8) & 0xff) as u8;
        let b4: u8 = (num & 0xff) as u8;
        assert(((num >> 24) & 0xff) == num / 0x0100_0000 && ((num >> 16) & 0xff) == num
            / 0x0001_0000 % 0x100 && ((num >> 8) & 0xff) == num / 0x0000_0100 % 0x100 && (num
            & 0xff) == num % 0x100) by (bit_vector);
        let out = [b1, b2, b3, b4];
        assert(out@ =~= be_bytes_u32(num));
        out
    }

    /// Hashes `data` to its position on the ring.
    pub fn internal_calc_hash(data: &[u8]) -> (h: u64)
        ensures
            h == hash_of(data@),
    {
        let res = blake2s(data);
        digest_prefix(&res)
    }

    /// Computes the position of replica `v_idx` of the node with the bytes `v`.
    pub fn calc_v_hash(v: &[u8], v_idx: u32) -> (h: u64)
        requires
            v_idx * MUL <= u32::MAX,
        ensures
            h == replica_key(v@, v_idx),
    {
        // the spread index stands before the node's bytes and after them
        let idx_bytes = Self::as_slice_u8_be(v_idx * MUL);

        let mut ad: Vec<u8> = Vec::new();
        ad.extend_from_slice(idx_bytes.as_slice());
        ad.extend_from_slice(v);
        ad.extend_from_slice(idx_bytes.as_slice());
        assert(ad@ =~= replica_input(v@, v_idx));

        Self::internal_calc_hash(ad.as_slice())
    }

    /// Lists every occupied position with its node, in ascending order of
    /// position.
    fn sorted_entries(&self) -> (sorted_vec: Vec<(&u64, &Node)>)
        ensures
            sorted_vec@.len() == self.nodes@.dom().len(),
            forall|i: int|
                0 <= i < sorted_vec@.len() ==> self.nodes@.contains_key(*sorted_vec@[i].0)
                    && self.nodes@[*sorted_vec@[i].0] == *sorted_vec@[i].1,
            forall|k: u64|
                self.nodes@.contains_key(k) ==> exists|i: int|
                    0 <= i < sorted_vec@.len() && *sorted_vec@[i].0 == k,
            forall|i: int, j: int|
                0 <= i < j < sorted_vec@.len() ==> *sorted_vec@[i].0 < *sorted_vec@[j].0,
    {
        let mut sorted_vec: Vec<(&u64, &Node)> = Vec::new();
        for kv in it: self.nodes.iter()
            invariant
                sorted_vec@ == it.seq().take(it.index()),
                it.seq() == self.nodes.iter().remaining(),
                increasing_seq(it.seq().map_values(|kv: (&u64, &Node)| *kv.0)),
        {
            sorted_vec.push(kv);
        }
        proof {
            let all = self.nodes.iter().remaining();
            let keys = all.map_values(|kv: (&u64, &Node)| *kv.0);
            vstd::std_specs::btree::axiom_increasing_seq_meaning::<u64>(keys);
            assert forall|i: int, j: int| 0 <= i < j < sorted_vec@.len() implies *sorted_vec@[i].0
                < *sorted_vec@[j].0 by {
                assert(keys[i] == *sorted_vec@[i].0);
                assert(keys[j] == *sorted_vec@[j].0);
                assert(keys[i].cmp_spec(&keys[j]) is Less);
            }
            assert forall|k: u64| self.nodes@.contains_key(k) implies exists|i: int|
                0 <= i < sorted_vec@.len() && *sorted_vec@[i].0 == k by {
                assert(all.contains((&k, &self.nodes@[k])));
                let i = choose|i: int| 0 <= i < all.len() && all[i] == (&k, &self.nodes@[k]);
                assert(*sorted_vec@[i].0 == k);
            }
        }
        sorted_vec
    }

    /// Searches entries that ascend by position for the position `hash`:
    /// `Ok` with the index where it stands, or `Err` with the index where it
    /// would have to be put.
    fn search_position(sorted_vec: &Vec<(&u64, &Node)>, hash: u64) -> (found: Result<
        usize,
        usize,
    >)
        requires
            forall|i: int, j: int|
                0 <= i < j < sorted_vec@.len() ==> *sorted_vec@[i].0 < *sorted_vec@[j].0,
        ensures
            match found {
                Ok(idx) => idx < sorted_vec@.len() && *sorted_vec@[idx as int].0 == hash,
                Err(idx) => {
                    &&& idx <= sorted_vec@.len()
                    &&& forall|i: int| 0 <= i < idx ==> *sorted_vec@[i].0 < hash
                    &&& forall|i: int| idx <= i < sorted_vec@.len() ==> hash < *sorted_vec@[i].0
                },
            },
    {
        let mut low: usize = 0;
        let mut high: usize = sorted_vec.len();
        while low < high
            invariant
                low <= high <= sorted_vec@.len(),
                forall|i: int, j: int|
                    0 <= i < j < sorted_vec@.len() ==> *sorted_vec@[i].0 < *sorted_vec@[j].0,
                forall|i: int| 0 <= i < low ==> *sorted_vec@[i].0 < hash,
                forall|i: int| high <= i < sorted_vec@.len() ==> hash < *sorted_vec@[i].0,
            decreases high - low,
        {
            let mid: usize = low + (high - low) / 2;
            let key: u64 = *sorted_vec[mid].0;
            if key == hash {
                return Ok(mid);
            } else if key < hash {
                low = mid + 1;
            } else {
                high = mid;
            }
        }
        Err(low)
    }

    /// Finds the node that serves `item` on a ring that is not empty: the
    /// node at the first position at or after the item's hash, or at the
    /// smallest position of all where the hash lies beyond every position.
    pub fn get_virtual_node(&self, item: &Node) -> (node: Node)
        requires
            !self@.entries.dom().is_empty(),
        ensures
            self@.lookup(item.encoding()) == Ok::<Node, ConsistentError>(node),
            serves(
                self@.entries.dom(),
                hash_of(item.encoding()),
                self@.position_of(item.encoding()),
            ),
    {
        // the item is hashed as it is, without an index round it
        let v = item.to_bytes();
        let i_hash = Self::internal_calc_hash(v.as_slice());

        let num_entries = self.nodes.len();

        // binary search over the entries in ascending order of position
        let sorted_vec = self.sorted_entries();
        let cmp_res = Self::search_position(&sorted_vec, i_hash);

        proof {
            // some position is occupied, and it is listed
            let k = choose|k: u64| self.nodes@.contains_key(k);
            assert(self.nodes@.contains_key(k));
            assert(sorted_vec@.len() > 0);
        }

        // past the last position the ring starts over
        let item_idx: usize = match cmp_res {
            Ok(idx) => idx,
            Err(idx) => {
                if idx >= num_entries {
                    0
                } else {
                    idx
                }
            },
        };

        let res = &sorted_vec[item_idx];
        proof {
            let keys = self.nodes@.dom();
            let found = *res.0;
            assert(serves(keys, i_hash, found));
            lemma_serves_is_successor(keys, i_hash, found);
        }
        duplicate(res.1)
    }

    /// Gives `node` all of its positions, taking over any that is occupied.
    fn add_virtual_nodes(&mut self, node: &Node)
        ensures
            final(self)@.entries == place(old(self)@.entries, *node, REPLICAS),
            final(self)@.count == old(self)@.count,
    {
        let v = node.to_bytes();
        proof {
            lemma_place_none(self.nodes@, *node);
        }

        for v_idx in INIT_V_IDX..REPLICAS
            invariant
                v@ == node.encoding(),
                self.nodes@ == place(old(self).nodes@, *node, v_idx),
                self.count == old(self).count,
        {
            let hash = Self::calc_v_hash(v.as_slice(), v_idx);
            let owner = duplicate(node);
            proof {
                lemma_place_step(old(self).nodes@, *node, v_idx);
            }
            self.nodes.insert(hash, owner);
        }
    }

    /// Vacates all the positions of `node`, whoever holds them.
    fn remove_virtual_nodes(&mut self, node: &Node)
        ensures
            final(self)@.entries == displace(old(self)@.entries, node.encoding(), REPLICAS),
            final(self)@.count == old(self)@.count,
    {
        let v = node.to_bytes();
        proof {
            lemma_displace_none(self.nodes@, node.encoding());
        }

        for v_idx in INIT_V_IDX..REPLICAS
            invariant
                v@ == node.encoding(),
                self.nodes@ == displace(old(self).nodes@, node.encoding(), v_idx),
                self.count == old(self).count,
        {
            let hash = Self::calc_v_hash(v.as_slice(), v_idx);
            proof {
                lemma_displace_step(old(self).nodes@, node.encoding(), v_idx);
            }
            self.nodes.remove(&hash);
        }
    }

    /// Adds a node to the ring, at all of its positions. A node whose
    /// representative position is occupied counts as held, and nothing
    /// changes.
    pub fn add(&mut self, node: Node)
        requires
            old(self)@.count < u32::MAX,
        ensures
            final(self)@ == old(self)@.with_node(node),
            old(self)@.wf() ==> final(self)@.wf(),
    {
        let v = node.to_bytes();
        let contains_hash = Self::calc_v_hash(v.as_slice(), INIT_V_IDX);

        if !self.nodes.contains_key(&contains_hash) {
            self.count += 1;
            self.add_virtual_nodes(&node);
        }
        proof {
            if old(self)@.wf() {
                old(self)@.lemma_with_node_wf(node);
            }
        }
    }

    /// Removes a node from the ring, vacating all of its positions. A node
    /// whose representative position is vacant counts as absent, and nothing
    /// changes. The count does not fall below zero.
    pub fn remove(&mut self, node: Node)
        ensures
            final(self)@ == old(self)@.without_node(node),
            old(self)@.wf() ==> final(self)@.wf(),
    {
        let v = node.to_bytes();
        let contains_hash = Self::calc_v_hash(v.as_slice(), INIT_V_IDX);

        if self.nodes.contains_key(&contains_hash) {
            if self.count > 0 {
                self.count -= 1;
            }
            self.remove_virtual_nodes(&node);
        }
        proof {
            if old(self)@.wf() {
                old(self)@.lemma_without_node_wf(node);
            }
        }
    }

    /// For a given `item`, returns the node that serves it, or
    /// `NoServerNodes` where the ring is empty.
    pub fn get(&self, item: &Node) -> (found: Result<Node, ConsistentError>)
        ensures
            found == self@.lookup(item.encoding()),
            found is Ok ==> serves(
                self@.entries.dom(),
                hash_of(item.encoding()),
                self@.position_of(item.encoding()),
            ),
    {
        if self.nodes.len() > 0 {
            Ok(self.get_virtual_node(item))
        } else {
            Err(ConsistentError::NoServerNodes)
        }
    }

    /// The number of nodes that are currently counted as present.
    pub fn get_node_count(&self) -> (count: u32)
        ensures
            count == self@.count,
    {
        self.count
    }
}

} // verus!
