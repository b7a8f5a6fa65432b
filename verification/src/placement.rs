//! Where a node sits on the ring: one position for each of its replicas.

use crate::digest::hash_of;
use vstd::prelude::*;

verus! {

/// The number of positions that each node takes on the ring.
pub const REPLICAS: u32 = 11;

/// The factor by which a replica's index is spread before it is encoded.
pub const MUL: u32 = 7;

/// The index of the replica whose position tells whether a node is present.
pub const INIT_V_IDX: u32 = 0;

/// The four bytes of `n`, most significant first.
pub open spec fn be_bytes_u32(n: u32) -> Seq<u8> {
    seq![
        (n / 0x0100_0000) as u8,
        (n / 0x0001_0000 % 0x100) as u8,
        (n / 0x0000_0100 % 0x100) as u8,
        (n % 0x100) as u8,
    ]
}

/// The bytes that are hashed for replica `idx` of a node: the node's bytes,
/// with the encoded multiple of the index before and after them.
pub open spec fn replica_input(node_bytes: Seq<u8>, idx: u32) -> Seq<u8>
    recommends
        idx * MUL <= u32::MAX,
{
    let tag = be_bytes_u32((idx * MUL) as u32);
    tag + node_bytes + tag
}

/// The ring position of replica `idx` of a node.
pub open spec fn replica_key(node_bytes: Seq<u8>, idx: u32) -> u64
    recommends
        idx * MUL <= u32::MAX,
{
    hash_of(replica_input(node_bytes, idx))
}

/// The position that stands for the node as a whole.
pub open spec fn representative_key(node_bytes: Seq<u8>) -> u64 {
    replica_key(node_bytes, INIT_V_IDX)
}

/// The positions of the first `n` replicas of a node.
pub open spec fn replica_keys_upto(node_bytes: Seq<u8>, n: u32) -> Set<u64> {
    Set::new(|k: u64| exists|i: u32| i < n && k == #[trigger] replica_key(node_bytes, i))
}

/// All the positions of a node.
pub open spec fn replica_keys(node_bytes: Seq<u8>) -> Set<u64> {
    replica_keys_upto(node_bytes, REPLICAS)
}

/// The positions of one replica more are those of the replicas before it and
/// its own.
pub proof fn lemma_replica_keys_step(node_bytes: Seq<u8>, n: u32)
    requires
        n < u32::MAX,
    ensures
        replica_keys_upto(node_bytes, (n + 1) as u32) == replica_keys_upto(node_bytes, n).insert(
            replica_key(node_bytes, n),
        ),
{
    let more = replica_keys_upto(node_bytes, (n + 1) as u32);
    let fewer = replica_keys_upto(node_bytes, n);
    assert forall|k: u64| fewer.contains(k) implies more.contains(k) by {
        let i = choose|i: u32| i < n && k == replica_key(node_bytes, i);
        assert(i < n + 1 && k == replica_key(node_bytes, i));
    }
    assert(more =~= fewer.insert(replica_key(node_bytes, n)));
}

} // verus!
