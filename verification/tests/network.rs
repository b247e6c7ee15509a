use kademlia::ident::NodeId;
use kademlia::message::{Payload, Reply};
use kademlia::network::Network;

fn ids(values: &[u128]) -> Vec<NodeId> {
    values.iter().map(|&v| NodeId(v)).collect()
}

/// Peers 1, 2 and 3: 2 joins through 1, and 3 joins through 2.
fn chain(k: usize) -> Network<String> {
    let mut net: Network<String> = Network::with_settings(3, k, 32);
    net.join(NodeId(1), None);
    net.join(NodeId(2), Some(0));
    net.join(NodeId(3), Some(1));
    net
}

fn holders(net: &Network<String>, key: u128) -> Vec<NodeId> {
    let mut out = Vec::new();
    for i in 0..net.len() {
        if net.node(i).get(key).is_some() {
            out.push(net.node(i).get_id());
        }
    }
    out
}

#[test]
fn a_new_network_is_empty() {
    let net: Network<String> = Network::new();
    assert!(net.is_empty());
    assert_eq!(net.len(), 0);
    assert!(net.ids().is_empty());
    assert_eq!(net.find(NodeId(1)), None);
}

#[test]
fn add_node_registers_distinct_peers() {
    let mut net: Network<String> = Network::new();
    let mut seen = Vec::new();
    for n in 0..20 {
        let id = net.add_node();
        assert!(!seen.contains(&id));
        seen.push(id);
        assert_eq!(net.len(), n + 1);
        assert_eq!(net.find(id), Some(n));
        assert_eq!(net.node(n).get_id(), id);
        assert_eq!(net.node(n).k(), 20);
    }
    assert_eq!(net.ids(), seen);
    // every peer but the first met somebody when it joined
    assert!(!net.node(0).neighbors().is_empty());
    for n in 1..20 {
        assert!(!net.node(n).neighbors().is_empty());
        assert_eq!(net.node(n).pending_len(), 0);
        assert_eq!(net.node(n).open_len(), 0);
    }
}

#[test]
fn joining_makes_the_newcomer_known_to_whom_it_asks() {
    let net = chain(20);
    assert_eq!(net.ids(), ids(&[1, 2, 3]));
    assert_eq!(net.node(0).neighbors(), ids(&[2]));
    assert_eq!(net.node(1).neighbors(), ids(&[1, 3]));
    assert_eq!(net.node(2).neighbors(), ids(&[2]));
    assert_eq!(net.node(1).recent(), ids(&[1, 3]));
}

#[test]
fn a_request_to_a_live_peer_is_answered() {
    let mut net = chain(20);
    assert!(matches!(net.request(0, NodeId(3), Payload::Ping), Some(Reply::Ack)));
    // both sides have heard from each other
    assert_eq!(net.node(0).neighbors(), ids(&[2, 3]));
    assert_eq!(net.node(2).neighbors(), ids(&[2, 1]));
    assert_eq!(net.node(0).open_len(), 0);
    assert_eq!(net.node(2).pending_len(), 0);
    match net.request(0, NodeId(2), Payload::FindNode(NodeId(3))) {
        Some(Reply::Nodes(list)) => assert_eq!(list, ids(&[3, 1])),
        other => panic!("expected candidates, got {:?}", other),
    }
    let stored = net.request(2, NodeId(1), Payload::Store { key: 9, value: String::from("nine") });
    assert!(matches!(stored, Some(Reply::Ack)));
    assert_eq!(net.node(0).get(9), Some(String::from("nine")));
    match net.request(1, NodeId(1), Payload::FindValue(9)) {
        Some(Reply::Found(v)) => assert_eq!(v, "nine"),
        other => panic!("expected the value, got {:?}", other),
    }
}

#[test]
fn a_request_to_itself_is_served_too() {
    let mut net = chain(20);
    let stored = net.request(1, NodeId(2), Payload::Store { key: 4, value: String::from("four") });
    assert!(matches!(stored, Some(Reply::Ack)));
    assert_eq!(net.node(1).get(4), Some(String::from("four")));
    assert_eq!(net.node(1).neighbors(), ids(&[1, 3]));
    assert_eq!(net.node(1).open_len(), 0);
    assert_eq!(net.node(1).pending_len(), 0);
}

#[test]
fn a_request_to_a_missing_peer_times_out() {
    let mut net = chain(20);
    assert!(net.request(0, NodeId(77), Payload::Ping).is_none());
    assert_eq!(net.node(0).neighbors(), ids(&[2]));
    assert_eq!(net.node(0).open_len(), 0);
    assert_eq!(net.kill_node_at(2), NodeId(3));
    assert!(net.request(0, NodeId(3), Payload::Ping).is_none());
}

#[test]
fn lookup_walks_towards_the_target() {
    let mut net = chain(20);
    let (lk, value) = net.lookup(0, NodeId(3), false);
    assert_eq!(value, None);
    assert!(lk.is_done());
    assert_eq!(lk.rounds(), 2);
    assert_eq!(lk.asked(), ids(&[2, 3]));
    assert_eq!(lk.answered(), ids(&[3, 2]));
    assert_eq!(lk.found(), ids(&[3, 2]));
    assert_eq!(net.node(0).neighbors(), ids(&[2, 3]));
    assert_eq!(net.node(2).neighbors(), ids(&[2, 1]));
}

#[test]
fn lookup_for_a_value_stops_at_the_first_holder() {
    let mut net = chain(20);
    let stored = net.request(2, NodeId(2), Payload::Store { key: 3, value: String::from("x") });
    assert!(stored.is_some());
    let (lk, value) = net.lookup(0, NodeId(3), true);
    assert_eq!(value, Some(String::from("x")));
    assert_eq!(lk.rounds(), 1);
    assert_eq!(lk.asked(), ids(&[2]));
    assert!(lk.answered().is_empty());
}

#[test]
fn insertion_replicates_to_the_closest_that_answered() {
    let mut net = chain(20);
    net.insert_value_at(0, 3, String::from("x"));
    assert_eq!(holders(&net, 3), ids(&[1, 2, 3]));
    for entry in 0..3 {
        assert_eq!(net.get_value_at(entry, 3), Some(String::from("x")));
    }
    assert_eq!(net.get_value_at(0, 4), None);
}

#[test]
fn replication_factor_one_keeps_a_single_copy() {
    let mut net = chain(1);
    assert_eq!(net.node(0).neighbors(), ids(&[2]));
    assert_eq!(net.node(1).neighbors(), ids(&[1, 3]));
    assert_eq!(net.node(2).neighbors(), ids(&[2]));
    net.insert_value_at(0, 3, String::from("x"));
    // peer 2 answers the lookup and lists peer 3, which is nearest to the
    // key and live: it gets the copy
    assert_eq!(holders(&net, 3), ids(&[3]));
    assert_eq!(net.node(0).neighbors(), ids(&[2, 3]));
    assert_eq!(net.get_value_at(0, 3), Some(String::from("x")));
    assert_eq!(net.get_value_at(1, 3), Some(String::from("x")));
    assert_eq!(net.get_value_at(2, 3), Some(String::from("x")));
}

#[test]
fn a_candidate_that_is_gone_is_passed_over() {
    let mut net = chain(1);
    assert_eq!(net.kill_node_at(2), NodeId(3));
    net.insert_value_at(0, 3, String::from("x"));
    // peer 2 still lists peer 3, but peer 3 does not answer the request to
    // store: the copy goes to the next nearest
    assert_eq!(holders(&net, 3), ids(&[2]));
    assert_eq!(net.node(0).neighbors(), ids(&[2]));
    assert_eq!(net.get_value_at(0, 3), Some(String::from("x")));
}

#[test]
fn two_copies_go_to_the_two_nearest_live_peers() {
    let mut net = chain(2);
    net.insert_value_at(0, 3, String::from("x"));
    assert_eq!(holders(&net, 3), ids(&[2, 3]));
    net.insert_value_at(2, 1, String::from("y"));
    // distances to key 1: peer 1 -> 0, peer 3 -> 2, peer 2 -> 3
    assert_eq!(holders(&net, 1), ids(&[1, 3]));
}

#[test]
fn the_entry_peer_keeps_the_value_when_it_is_nearest() {
    let mut net = chain(1);
    net.insert_value_at(0, 1, String::from("one"));
    assert_eq!(holders(&net, 1), ids(&[1]));
    assert_eq!(net.get_value_at(0, 1), Some(String::from("one")));
    assert_eq!(net.get_value_at(1, 1), Some(String::from("one")));
}

#[test]
fn killing_the_only_holder_loses_the_value() {
    let mut net = chain(1);
    net.insert_value_at(0, 3, String::from("x"));
    assert_eq!(holders(&net, 3), ids(&[3]));
    let at = net.find(NodeId(3)).expect("peer 3 is live");
    assert_eq!(net.kill_node_at(at), NodeId(3));
    assert_eq!(net.ids(), ids(&[1, 2]));
    assert_eq!(net.find(NodeId(3)), None);
    assert_eq!(net.get_value_at(0, 3), None);
    assert_eq!(net.get_value_at(1, 3), None);
}

#[test]
fn killing_a_peer_without_a_copy_changes_no_answer() {
    let mut net = chain(1);
    net.insert_value_at(0, 3, String::from("x"));
    assert_eq!(holders(&net, 3), ids(&[3]));
    assert_eq!(net.get_value_at(0, 3), Some(String::from("x")));
    assert_eq!(net.kill_node_at(1), NodeId(2));
    assert_eq!(net.get_value_at(0, 3), Some(String::from("x")));
    assert_eq!(net.get_value_at(1, 3), Some(String::from("x")));
    assert_eq!(holders(&net, 3), ids(&[3]));
}

#[test]
fn a_single_peer_serves_itself() {
    let mut net: Network<String> = Network::new();
    let id = net.add_node();
    assert!(net.node(0).neighbors().is_empty());
    net.insert_value(5, String::from("five"));
    assert_eq!(net.get_value(5), Some(String::from("five")));
    assert_eq!(net.get_value(6), None);
    net.insert_value(5, String::from("cinq"));
    assert_eq!(net.get_value(5), Some(String::from("cinq")));
    assert_eq!(net.kill_node(), id);
    assert!(net.is_empty());
}

#[test]
fn three_peers_round_trip() {
    for _ in 0..200 {
        let mut net: Network<String> = Network::new();
        let a = net.add_node();
        let b = net.add_node();
        let c = net.add_node();
        assert_eq!(net.ids(), vec![a, b, c]);
        net.insert_value(1, String::from("x"));
        assert_eq!(net.get_value(1), Some(String::from("x")));
        assert_eq!(net.get_value(1), Some(String::from("x")));
        assert_eq!(net.get_value(2), None);
    }
}

#[test]
fn three_peers_with_one_copy_lose_it_with_its_holder() {
    for _ in 0..100 {
        let mut net: Network<String> = Network::with_settings(3, 1, 32);
        net.add_node();
        net.add_node();
        net.add_node();
        net.insert_value(1, String::from("x"));
        let held = holders(&net, 1);
        assert_eq!(held.len(), 1);
        let at = net.find(held[0]).expect("the holder is live");
        assert_eq!(net.kill_node_at(at), held[0]);
        assert_eq!(net.len(), 2);
        assert_eq!(net.get_value(1), None);
        assert_eq!(net.get_value(1), None);
    }
}

#[test]
fn four_keys_come_back_each_with_its_value() {
    for _ in 0..50 {
        let mut net: Network<String> = Network::new();
        for _ in 0..3 {
            net.add_node();
        }
        let pairs = [(0u128, "a"), (1, "b"), (2, "c"), (3, "d")];
        for (k, v) in pairs.iter() {
            net.insert_value(*k, String::from(*v));
        }
        let mut got = Vec::new();
        for (k, _) in pairs.iter() {
            got.push(net.get_value(*k));
        }
        assert_eq!(
            got,
            vec![
                Some(String::from("a")),
                Some(String::from("b")),
                Some(String::from("c")),
                Some(String::from("d"))
            ]
        );
    }
}

#[test]
fn kill_node_removes_one_live_peer() {
    let mut net: Network<String> = Network::new();
    let mut live = Vec::new();
    for _ in 0..6 {
        live.push(net.add_node());
    }
    for left in (0..6).rev() {
        let gone = net.kill_node();
        assert!(live.contains(&gone));
        live.retain(|id| *id != gone);
        assert_eq!(net.len(), left);
        assert_eq!(net.ids(), live);
        assert_eq!(net.find(gone), None);
    }
    assert!(net.is_empty());
}

#[test]
fn values_of_other_types_are_stored_too() {
    let mut net: Network<u64> = Network::new();
    net.add_node();
    net.add_node();
    net.insert_value(10, 1234);
    assert_eq!(net.get_value(10), Some(1234));
    let mut flags: Network<bool> = Network::new();
    flags.add_node();
    flags.insert_value(1, true);
    assert_eq!(flags.get_value(1), Some(true));
}

#[test]
fn lookups_stay_within_their_ceiling() {
    let mut net: Network<String> = Network::with_settings(2, 4, 5);
    for _ in 0..40 {
        net.add_node();
    }
    for entry in 0..40 {
        let (lk, _) = net.lookup(entry, NodeId::new(), false);
        assert!(lk.is_done());
        assert!(lk.rounds() <= 5);
        assert!(lk.asked().len() <= 2 * lk.rounds());
        assert!(lk.found().len() <= 4);
        let mut asked = lk.asked();
        asked.sort_by_key(|id| id.0);
        asked.dedup();
        assert_eq!(asked.len(), lk.asked().len());
    }
}
