use kademlia::closest::{arranged, closest, insert_by_distance};
use kademlia::fresh::{holds, pick_free};
use kademlia::ident::{Cookie, NodeId};

#[test]
fn test_nodeid_distance() {
    for _ in 0..100 {
        let a = NodeId::new();
        let b = NodeId::new();
        let c = NodeId::new();
        // a.dist(&b) >= 0 (u128)
        assert_eq!(a.dist(&a), 0);
        assert_eq!(a.dist(&b), b.dist(&a));
        if a.dist(&c).overflowing_add(c.dist(&b)).1 {
            // dist(a, b) <= u128::MAX < dist(a, b) + dist(b, c)
        } else {
            assert!(a.dist(&b) <= a.dist(&c) + c.dist(&b));
        }
    }
}

#[test]
fn distance_is_bitwise_xor() {
    let a = NodeId::from(0b1010u128);
    let b = NodeId::from(0b0110u128);
    assert_eq!(a.dist(&b), 0b1100);
    assert_eq!(b.dist(&a), 12);
    let top = NodeId::from(u128::MAX);
    let zero = NodeId::from(0u128);
    assert_eq!(top.dist(&zero), u128::MAX);
    assert_eq!(top.dist(&top), 0);
}

#[test]
fn triangle_holds_where_the_sum_fits() {
    let values = [0u128, 1, 2, 3, 5, 8, 100, 255, 1 << 64, (1 << 127) - 1];
    for &x in values.iter() {
        for &y in values.iter() {
            for &z in values.iter() {
                let (a, b, c) = (NodeId::from(x), NodeId::from(y), NodeId::from(z));
                assert_eq!(a.dist(&b), b.dist(&a));
                assert_eq!(a.dist(&b) == 0, x == y);
                let sum = a.dist(&c).checked_add(c.dist(&b));
                if let Some(sum) = sum {
                    assert!(a.dist(&b) <= sum);
                }
            }
        }
    }
}

#[test]
fn identifiers_and_tokens_come_from_integers() {
    assert_eq!(NodeId::from(7u128), NodeId(7));
    assert_eq!(Cookie::from(9u128), Cookie(9));
    assert_ne!(NodeId::from(7u128), NodeId::from(8u128));
}

#[test]
fn random_identifiers_differ() {
    let mut seen: Vec<NodeId> = Vec::new();
    for _ in 0..64 {
        let id = NodeId::new();
        assert!(!seen.contains(&id));
        seen.push(id);
    }
    let a = Cookie::new();
    let b = Cookie::new();
    assert_ne!(a, b);
}

#[test]
fn insert_by_distance_keeps_ascending_order() {
    let target = NodeId(0);
    let mut list: Vec<NodeId> = Vec::new();
    insert_by_distance(&mut list, &target, NodeId(5));
    insert_by_distance(&mut list, &target, NodeId(2));
    insert_by_distance(&mut list, &target, NodeId(9));
    insert_by_distance(&mut list, &target, NodeId(5));
    insert_by_distance(&mut list, &target, NodeId(7));
    assert_eq!(list, vec![NodeId(2), NodeId(5), NodeId(7), NodeId(9)]);
}

#[test]
fn arrangement_depends_on_the_target() {
    let ids = vec![NodeId(1), NodeId(2), NodeId(4), NodeId(7), NodeId(2)];
    // distances to 6: 1^6 = 7, 2^6 = 4, 4^6 = 2, 7^6 = 1
    assert_eq!(
        arranged(&ids, &NodeId(6)),
        vec![NodeId(7), NodeId(4), NodeId(2), NodeId(1)]
    );
    // distances to 0 are the values themselves
    assert_eq!(
        arranged(&ids, &NodeId(0)),
        vec![NodeId(1), NodeId(2), NodeId(4), NodeId(7)]
    );
    assert_eq!(arranged(&Vec::new(), &NodeId(6)), Vec::<NodeId>::new());
}

#[test]
fn closest_takes_the_nearest_few() {
    let ids = vec![NodeId(1), NodeId(2), NodeId(4), NodeId(7)];
    assert_eq!(closest(&ids, &NodeId(6), 2), vec![NodeId(7), NodeId(4)]);
    assert_eq!(closest(&ids, &NodeId(6), 0), Vec::<NodeId>::new());
    assert_eq!(
        closest(&ids, &NodeId(6), 10),
        vec![NodeId(7), NodeId(4), NodeId(2), NodeId(1)]
    );
    assert_eq!(closest(&ids, &NodeId(1), 1), vec![NodeId(1)]);
}

#[test]
fn pick_free_keeps_a_free_start() {
    assert_eq!(pick_free(&vec![], 42), 42);
    assert_eq!(pick_free(&vec![1, 2, 3], 42), 42);
    assert_eq!(pick_free(&vec![41, 43], 42), 42);
}

#[test]
fn pick_free_walks_past_what_is_taken() {
    assert_eq!(pick_free(&vec![42], 42), 43);
    assert_eq!(pick_free(&vec![44, 42, 43], 42), 45);
    assert_eq!(pick_free(&vec![42, 44], 42), 43);
}

#[test]
fn pick_free_goes_round_at_the_end_of_the_range() {
    assert_eq!(pick_free(&vec![u128::MAX], u128::MAX), 0);
    assert_eq!(pick_free(&vec![0, u128::MAX, 1], u128::MAX), 2);
    assert_eq!(pick_free(&vec![u128::MAX - 1, u128::MAX], u128::MAX - 1), 0);
}

#[test]
fn holds_finds_members_only() {
    assert!(holds(&vec![3, 1, 2], 1));
    assert!(!holds(&vec![3, 1, 2], 4));
    assert!(!holds(&vec![], 0));
}
