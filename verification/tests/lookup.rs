use consistent_hash::placement::REPLICAS;
use consistent_hash::ConsistentHash;

type Ring = ConsistentHash<&'static str>;

const SERVERS: [&str; 6] = ["server1", "server2", "server3", "server4", "server5", "server6"];

/// Every occupied position with its node, in ascending order of position.
fn positions(nodes: &[&'static str]) -> Vec<(u64, &'static str)> {
    let mut all = Vec::new();
    for node in nodes {
        for idx in 0..REPLICAS {
            all.push((Ring::calc_v_hash(node.as_bytes(), idx), *node));
        }
    }
    all.sort();
    all
}

fn ring_of(nodes: &[&'static str]) -> Ring {
    let mut ring = Ring::new();
    for node in nodes {
        ring.add(*node);
    }
    ring
}

#[test]
fn lookup_takes_the_first_position_at_or_after_the_hash() {
    let ring = ring_of(&SERVERS);
    let all = positions(&SERVERS);
    assert_eq!(all.len(), 66);
    for i in 0..500 {
        let item = format!("item{}", i);
        let hash = Ring::internal_calc_hash(item.as_bytes());
        let expected = match all.iter().find(|(key, _)| *key >= hash) {
            Some((_, node)) => *node,
            None => all[0].1,
        };
        assert_eq!(ring.get(&item.as_str()), Ok(expected));
    }
}

#[test]
fn lookup_wraps_round_to_the_smallest_position() {
    let ring = ring_of(&SERVERS);
    let all = positions(&SERVERS);
    assert_eq!(all[0], (0x07c2_a000_e5cf_bb37, "server5"));
    assert_eq!(all[65], (0xfd85_8df9_63cb_3660, "server1"));
    // "key193" hashes beyond the largest position
    let hash = Ring::internal_calc_hash(b"key193");
    assert_eq!(hash, 0xffb4_fe50_012e_fe39);
    assert!(all.iter().all(|(key, _)| *key < hash));
    assert_eq!(ring.get(&"key193"), Ok("server5"));
}

#[test]
fn lookup_below_the_smallest_position_takes_it() {
    let ring = ring_of(&SERVERS);
    let all = positions(&SERVERS);
    // "key29" hashes below the smallest position
    let hash = Ring::internal_calc_hash(b"key29");
    assert_eq!(hash, 0x0620_67c9_a414_26b5);
    assert!(all.iter().all(|(key, _)| *key > hash));
    assert_eq!(ring.get(&"key29"), Ok("server5"));
}

#[test]
fn every_wrapping_item_lands_on_the_smallest_position() {
    let ring = ring_of(&SERVERS);
    let all = positions(&SERVERS);
    let largest = all[all.len() - 1].0;
    let mut wrapped = 0;
    for i in 0..2000 {
        let item = format!("key{}", i);
        if Ring::internal_calc_hash(item.as_bytes()) > largest {
            wrapped += 1;
            assert_eq!(ring.get(&item.as_str()), Ok(all[0].1));
        }
    }
    assert!(wrapped > 0);
}

#[test]
fn lookup_after_removal_follows_the_remaining_positions() {
    let mut ring = ring_of(&SERVERS);
    ring.remove("server2");
    ring.remove("server5");
    let all = positions(&["server1", "server3", "server4", "server6"]);
    for i in 0..500 {
        let item = format!("item{}", i);
        let hash = Ring::internal_calc_hash(item.as_bytes());
        let expected = match all.iter().find(|(key, _)| *key >= hash) {
            Some((_, node)) => *node,
            None => all[0].1,
        };
        assert_eq!(ring.get(&item.as_str()), Ok(expected));
    }
}
