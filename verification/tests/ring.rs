use consistent_hash::ConsistentError;
use consistent_hash::ConsistentHash;

#[test]
fn lib_add() {
    let mut c = ConsistentHash::<&str>::new();
    assert_eq!(c.get_node_count(), 0);
    c.add("a");
    assert_eq!(c.get_node_count(), 1);
    c.add("b");
    assert_eq!(c.get_node_count(), 2);
}

#[test]
fn lib_remove() {
    let mut c = ConsistentHash::<&str>::new();
    assert_eq!(c.get_node_count(), 0);
    c.add("a");
    assert_eq!(c.get_node_count(), 1);
    c.add("b");
    assert_eq!(c.get_node_count(), 2);
    c.remove("a");
    assert_eq!(c.get_node_count(), 1);
    c.remove("b");
    assert_eq!(c.get_node_count(), 0);
}

#[test]
fn lib_only_move_keys_that_were_removed() {
    let mut ch = ConsistentHash::<&str>::new();
    ch.add("server1");
    ch.add("server2");
    ch.add("server3");
    ch.add("server4");
    ch.add("server5");
    ch.add("server6");

    let oneh = ch.get(&"item1").unwrap();
    let twoh = ch.get(&"item2").unwrap();

    ch.remove(oneh);
    assert_ne!(ch.get(&"item1").unwrap(), oneh);
    assert_eq!(ch.get(&"item2").unwrap(), twoh);
}

#[test]
fn get_node_count() {
    let mut ch = ConsistentHash::<&str>::new();
    assert_eq!(ch.get_node_count(), 0);
    ch.add("server1");
    assert_eq!(ch.get_node_count(), 1);
    ch.add("server2");
    assert_eq!(ch.get_node_count(), 2);
    ch.remove("server1");
    assert_eq!(ch.get_node_count(), 1);
}

#[test]
fn err_on_empty_nodes() {
    let ch = ConsistentHash::<&str>::new();
    assert!(ch.get(&"item1").is_err());
}

#[test]
fn main_add() {
    let mut c = ConsistentHash::<&str>::new();
    assert_eq!(c.get_node_count(), 0);
    c.add("a");
    assert_eq!(c.get_node_count(), 1);
    c.add("b");
    assert_eq!(c.get_node_count(), 2);
}

#[test]
fn main_remove() {
    let mut c = ConsistentHash::<&str>::new();
    assert_eq!(c.get_node_count(), 0);
    c.add("a");
    assert_eq!(c.get_node_count(), 1);
    c.add("b");
    assert_eq!(c.get_node_count(), 2);
    c.remove("a");
    assert_eq!(c.get_node_count(), 1);
    c.remove("b");
    assert_eq!(c.get_node_count(), 0);
}

#[test]
fn main_only_move_keys_that_were_removed() {
    let mut ch = ConsistentHash::<&str>::new();
    ch.add("server1");
    ch.add("server2");
    ch.add("server3");
    ch.add("server4");
    ch.add("server5");
    ch.add("server6");

    println!("{:?}", ch.get_virtual_node(&"item1"));
    println!("{:?}", ch.get_virtual_node(&"item2"));
    println!("{:?}", ch.get_virtual_node(&"item3"));
    println!("{:?}", ch.get_virtual_node(&"item4"));
    println!("{:?}", ch.get_virtual_node(&"item5"));
    println!("{:?}", ch.get_virtual_node(&"item6"));

    let oneh = ch.get_virtual_node(&"item1");
    let twoh = ch.get_virtual_node(&"item2");

    ch.remove(oneh);
    assert_ne!(ch.get_virtual_node(&"item1"), oneh);
    assert_eq!(ch.get_virtual_node(&"item2"), twoh);
}

#[test]
fn empty_ring_reports_no_server_nodes() {
    let ch = ConsistentHash::<&str>::new();
    assert_eq!(ch.get(&"item1"), Err(ConsistentError::NoServerNodes));
    assert_eq!(ch.get(&""), Err(ConsistentError::NoServerNodes));
}

fn six_servers() -> ConsistentHash<&'static str> {
    let mut ch = ConsistentHash::<&str>::new();
    ch.add("server1");
    ch.add("server2");
    ch.add("server3");
    ch.add("server4");
    ch.add("server5");
    ch.add("server6");
    ch
}

#[test]
fn adding_twice_counts_once() {
    let mut c = ConsistentHash::<&str>::new();
    c.add("a");
    assert_eq!(c.get_node_count(), 1);
    c.add("b");
    assert_eq!(c.get_node_count(), 2);
    c.add("a");
    assert_eq!(c.get_node_count(), 2);
    c.add("b");
    c.add("b");
    assert_eq!(c.get_node_count(), 2);
}

#[test]
fn adding_twice_leaves_lookups_alone() {
    let mut ch = six_servers();
    let items: Vec<String> = (0..50).map(|i| format!("item{}", i)).collect();
    let before: Vec<&str> = items.iter().map(|item| ch.get(&item.as_str()).unwrap()).collect();
    ch.add("server3");
    ch.add("server1");
    let after: Vec<&str> = items.iter().map(|item| ch.get(&item.as_str()).unwrap()).collect();
    assert_eq!(before, after);
    assert_eq!(ch.get_node_count(), 6);
}

#[test]
fn removing_absent_node_changes_nothing() {
    let mut c = ConsistentHash::<&str>::new();
    c.remove("ghost");
    assert_eq!(c.get_node_count(), 0);
    c.add("a");
    c.add("b");
    let served = c.get(&"item1").unwrap();
    c.remove("ghost");
    assert_eq!(c.get_node_count(), 2);
    assert_eq!(c.get(&"item1").unwrap(), served);
    c.remove("a");
    c.remove("a");
    assert_eq!(c.get_node_count(), 1);
}

#[test]
fn count_follows_the_nodes_on_the_ring() {
    let mut c = ConsistentHash::<&str>::new();
    c.add("a");
    c.add("b");
    c.add("c");
    c.add("a");
    assert_eq!(c.get_node_count(), 3);
    c.remove("b");
    c.remove("b");
    c.remove("z");
    assert_eq!(c.get_node_count(), 2);
    c.add("b");
    assert_eq!(c.get_node_count(), 3);
    c.remove("a");
    c.remove("b");
    c.remove("c");
    assert_eq!(c.get_node_count(), 0);
    c.remove("c");
    assert_eq!(c.get_node_count(), 0);
}

#[test]
fn last_removal_empties_the_ring() {
    let mut c = ConsistentHash::<&str>::new();
    c.add("a");
    assert_eq!(c.get(&"item1"), Ok("a"));
    c.remove("a");
    assert_eq!(c.get(&"item1"), Err(ConsistentError::NoServerNodes));
    c.add("b");
    assert_eq!(c.get(&"item1"), Ok("b"));
}

#[test]
fn lookup_is_repeatable() {
    let ch = six_servers();
    for i in 0..100 {
        let item = format!("item{}", i);
        let first = ch.get(&item.as_str());
        assert!(first.is_ok());
        assert_eq!(ch.get(&item.as_str()), first);
        assert_eq!(ch.get(&item.as_str()), first);
    }
}

#[test]
fn lookup_does_not_depend_on_insertion_order() {
    let forward = six_servers();
    let mut backward = ConsistentHash::<&str>::new();
    backward.add("server6");
    backward.add("server5");
    backward.add("server4");
    backward.add("server3");
    backward.add("server2");
    backward.add("server1");
    for i in 0..100 {
        let item = format!("item{}", i);
        assert_eq!(forward.get(&item.as_str()), backward.get(&item.as_str()));
    }
}

#[test]
fn lookup_finds_the_known_owners() {
    let ch = six_servers();
    assert_eq!(ch.get(&"item1"), Ok("server1"));
    assert_eq!(ch.get(&"item2"), Ok("server2"));
    assert_eq!(ch.get(&"item3"), Ok("server3"));
    assert_eq!(ch.get(&"item4"), Ok("server2"));
    assert_eq!(ch.get(&"item5"), Ok("server4"));
    assert_eq!(ch.get(&"item6"), Ok("server2"));
}

#[test]
fn get_virtual_node_agrees_with_get() {
    let ch = six_servers();
    for i in 0..100 {
        let item = format!("item{}", i);
        assert_eq!(Ok(ch.get_virtual_node(&item.as_str())), ch.get(&item.as_str()));
    }
}

#[test]
fn removal_moves_only_the_items_of_the_removed_node() {
    let mut ch = six_servers();
    let items: Vec<String> = (0..200).map(|i| format!("item{}", i)).collect();
    let before: Vec<&str> = items.iter().map(|item| ch.get(&item.as_str()).unwrap()).collect();
    ch.remove("server1");
    assert_eq!(ch.get_node_count(), 5);
    assert_eq!(ch.get(&"item1"), Ok("server6"));
    assert_eq!(ch.get(&"item2"), Ok("server2"));
    let mut moved = 0;
    for (item, owner) in items.iter().zip(before.iter()) {
        let now = ch.get(&item.as_str()).unwrap();
        assert_ne!(now, "server1");
        if *owner == "server1" {
            moved += 1;
        } else {
            assert_eq!(now, *owner);
        }
    }
    assert!(moved > 0);
}

#[test]
fn addition_moves_items_only_to_the_new_node() {
    let mut ch = six_servers();
    let items: Vec<String> = (0..200).map(|i| format!("item{}", i)).collect();
    let before: Vec<&str> = items.iter().map(|item| ch.get(&item.as_str()).unwrap()).collect();
    ch.add("server7");
    assert_eq!(ch.get_node_count(), 7);
    let mut moved = 0;
    for (item, owner) in items.iter().zip(before.iter()) {
        let now = ch.get(&item.as_str()).unwrap();
        if now == "server7" {
            moved += 1;
        } else {
            assert_eq!(now, *owner);
        }
    }
    assert!(moved > 0);
}

#[test]
fn removing_what_was_added_restores_the_lookups() {
    let mut ch = six_servers();
    let items: Vec<String> = (0..100).map(|i| format!("item{}", i)).collect();
    let before: Vec<&str> = items.iter().map(|item| ch.get(&item.as_str()).unwrap()).collect();
    ch.add("server7");
    ch.remove("server7");
    let after: Vec<&str> = items.iter().map(|item| ch.get(&item.as_str()).unwrap()).collect();
    assert_eq!(before, after);
    assert_eq!(ch.get_node_count(), 6);
}

#[test]
fn single_node_serves_every_item() {
    let mut c = ConsistentHash::<&str>::new();
    c.add("a");
    for i in 0..200 {
        let item = format!("k{}", i);
        assert_eq!(c.get(&item.as_str()), Ok("a"));
    }
    // "k120" hashes beyond all eleven positions of "a"
    assert_eq!(c.get(&"k120"), Ok("a"));
}

#[test]
fn string_nodes() {
    let mut c = ConsistentHash::<String>::new();
    c.add(String::from("server1"));
    c.add(String::from("server2"));
    c.add(String::from("server1"));
    assert_eq!(c.get_node_count(), 2);
    let mut by_str = ConsistentHash::<&str>::new();
    by_str.add("server1");
    by_str.add("server2");
    for i in 0..50 {
        let item = format!("item{}", i);
        let found = c.get(&item).unwrap();
        assert_eq!(found.as_str(), by_str.get(&item.as_str()).unwrap());
    }
    c.remove(String::from("server1"));
    assert_eq!(c.get(&String::from("item1")), Ok(String::from("server2")));
}

#[test]
fn byte_slice_nodes() {
    let mut c = ConsistentHash::<&[u8]>::new();
    c.add(&b"server1"[..]);
    c.add(&b"server2"[..]);
    assert_eq!(c.get_node_count(), 2);
    let mut by_str = ConsistentHash::<&str>::new();
    by_str.add("server1");
    by_str.add("server2");
    for i in 0..50 {
        let item = format!("item{}", i);
        let found = c.get(&item.as_bytes()).unwrap();
        assert_eq!(found, by_str.get(&item.as_str()).unwrap().as_bytes());
    }
}

#[test]
fn error_says_what_went_wrong() {
    let ch = ConsistentHash::<&str>::new();
    let err = ch.get(&"item1").unwrap_err();
    assert_eq!(err, ConsistentError::NoServerNodes);
    assert_eq!(
        err.message(),
        "there are no server nodes currently registered in the hasher"
    );
}
