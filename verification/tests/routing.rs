use kademlia::ident::NodeId;
use kademlia::routing::{Routing, RECENT_CAPACITY};

#[test]
fn new_routing_knows_nobody() {
    let r = Routing::new();
    assert!(r.neighbors().is_empty());
    assert!(r.recent().is_empty());
    assert!(!r.knows(NodeId(1)));
    assert!(r.closest(&NodeId(0), 5).is_empty());
}

#[test]
fn touch_puts_the_newest_contact_last() {
    let mut r = Routing::new();
    r.touch(NodeId(1));
    r.touch(NodeId(2));
    r.touch(NodeId(3));
    assert_eq!(r.recent(), vec![NodeId(1), NodeId(2), NodeId(3)]);
    r.touch(NodeId(1));
    assert_eq!(r.recent(), vec![NodeId(2), NodeId(3), NodeId(1)]);
    assert_eq!(r.neighbors(), vec![NodeId(1), NodeId(2), NodeId(3)]);
}

#[test]
fn recency_list_evicts_the_oldest_on_overflow() {
    let mut r = Routing::new();
    for i in 0..(RECENT_CAPACITY as u128 + 4) {
        r.touch(NodeId(i));
    }
    let recent = r.recent();
    assert_eq!(recent.len(), RECENT_CAPACITY);
    assert_eq!(recent[0], NodeId(4));
    assert_eq!(recent[RECENT_CAPACITY - 1], NodeId(RECENT_CAPACITY as u128 + 3));
    // the neighbour list is unbounded and forgets nobody
    assert_eq!(r.neighbors().len(), RECENT_CAPACITY + 4);
    assert!(r.knows(NodeId(0)));
    assert!(!r.recent().contains(&NodeId(0)));
}

#[test]
fn recency_capacity_is_sixteen() {
    assert_eq!(RECENT_CAPACITY, 16);
}

#[test]
fn closest_known_are_ordered_by_distance() {
    let mut r = Routing::new();
    for i in [8u128, 1, 12, 3, 6] {
        r.touch(NodeId(i));
    }
    // distances to 7: 8^7 = 15, 1^7 = 6, 12^7 = 11, 3^7 = 4, 6^7 = 1
    assert_eq!(r.closest(&NodeId(7), 3), vec![NodeId(6), NodeId(3), NodeId(1)]);
    assert_eq!(
        r.closest(&NodeId(7), 9),
        vec![NodeId(6), NodeId(3), NodeId(1), NodeId(12), NodeId(8)]
    );
}
