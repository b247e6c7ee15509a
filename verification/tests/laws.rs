use kademlia::ident::{Cookie, NodeId};
use kademlia::message::{Body, Message, Payload, Reply};
use kademlia::network::Network;

fn pick(n: usize) -> usize {
    (NodeId::new().0 % n as u128) as usize
}

/// A network that has seen peers come and go.
fn churned(alpha: usize, k: usize) -> Network<String> {
    let mut net: Network<String> = Network::with_settings(alpha, k, 32);
    for _ in 0..12 {
        net.add_node();
    }
    for _ in 0..4 {
        net.kill_node();
    }
    for _ in 0..4 {
        net.add_node();
    }
    net
}

fn holders(net: &Network<String>, key: u128) -> Vec<NodeId> {
    let mut out = Vec::new();
    for i in 0..net.len() {
        if net.node(i).get(key).is_some() {
            out.push(net.node(i).get_id());
        }
    }
    out
}

#[test]
fn what_a_peer_stored_it_finds_again() {
    for trial in 0..40 {
        let alpha = 1 + trial % 3;
        let k = 1 + (trial / 3) % 4;
        let mut net = churned(alpha, k);
        for n in 0..10u128 {
            let key = NodeId::new().0;
            let entry = pick(net.len());
            let value = format!("value {}", n);
            net.insert_value_at(entry, key, value.clone());
            assert_eq!(net.get_value_at(entry, key), Some(value));
        }
    }
}

#[test]
fn an_insertion_reaches_between_one_and_k_holders() {
    for trial in 0..40 {
        let k = 1 + trial % 5;
        let mut net = churned(3, k);
        let key = NodeId::new().0;
        let entry = pick(net.len());
        let ids_before = net.ids();
        net.insert_value_at(entry, key, String::from("v"));
        let held = holders(&net, key);
        assert!(!held.is_empty());
        assert!(held.len() <= k);
        assert_eq!(net.ids(), ids_before);
        for i in 0..net.len() {
            if let Some(v) = net.node(i).get(key) {
                assert_eq!(v, "v");
            }
            assert_eq!(net.node(i).pending_len(), 0);
            assert_eq!(net.node(i).open_len(), 0);
        }
    }
}

#[test]
fn removing_a_peer_without_a_copy_keeps_the_answer() {
    for trial in 0..40 {
        let k = 1 + trial % 3;
        let mut net = churned(3, k);
        let key = NodeId::new().0;
        let entry = pick(net.len());
        let me = net.node(entry).get_id();
        net.insert_value_at(entry, key, String::from("v"));
        assert_eq!(net.get_value_at(entry, key), Some(String::from("v")));
        // remove, one after the other, every other peer that keeps no copy
        loop {
            let mut gone = None;
            for i in 0..net.len() {
                if net.node(i).get_id() != me && net.node(i).get(key).is_none() {
                    gone = Some(i);
                    break;
                }
            }
            match gone {
                None => break,
                Some(i) => {
                    net.kill_node_at(i);
                    let at = net.find(me).expect("the entry peer stays");
                    assert_eq!(net.get_value_at(at, key), Some(String::from("v")));
                }
            }
        }
        assert!(net.len() <= k + 1);
    }
}

#[test]
fn a_lookup_changes_no_store_and_no_registry() {
    let mut net = churned(3, 2);
    net.insert_value_at(0, 5, String::from("five"));
    let held = holders(&net, 5);
    let ids = net.ids();
    for entry in 0..net.len() {
        let _ = net.lookup(entry, NodeId::new(), false);
        let _ = net.lookup(entry, NodeId::new(), true);
    }
    assert_eq!(holders(&net, 5), held);
    assert_eq!(net.ids(), ids);
}

#[test]
fn a_copy_at_a_peer_asked_first_is_found() {
    // peer 1 knows 2 and 3; only 3 keeps the value
    let mut net: Network<String> = Network::with_settings(3, 2, 32);
    net.join(NodeId(1), None);
    net.join(NodeId(2), Some(0));
    net.join(NodeId(3), Some(0));
    assert_eq!(net.node(0).neighbors(), vec![NodeId(2), NodeId(3)]);
    let stored = net.request(1, NodeId(3), Payload::Store { key: 2, value: String::from("x") });
    assert!(matches!(stored, Some(Reply::Ack)));
    // the key is nearest to peer 2, which is asked first and has no copy
    let (lk, value) = net.lookup(0, NodeId(2), true);
    assert_eq!(value, Some(String::from("x")));
    assert_eq!(lk.asked(), vec![NodeId(2), NodeId(3)]);
    assert_eq!(lk.rounds(), 1);
    assert_eq!(net.get_value_at(0, 2), Some(String::from("x")));
    // without peer 2 the copy is still found
    assert_eq!(net.kill_node_at(1), NodeId(2));
    assert_eq!(net.get_value_at(0, 2), Some(String::from("x")));
}

#[test]
fn an_older_copy_of_its_own_does_not_shadow_a_newer_one() {
    let mut net: Network<String> = Network::with_settings(3, 1, 32);
    net.join(NodeId(8), None);
    net.insert_value_at(0, 1, String::from("old"));
    net.join(NodeId(1), Some(0));
    // the newer value goes to peer 1, which is nearest to the key
    net.insert_value_at(0, 1, String::from("new"));
    assert_eq!(holders(&net, 1), vec![NodeId(8), NodeId(1)]);
    assert_eq!(net.node(0).get(1), Some(String::from("old")));
    assert_eq!(net.node(1).get(1), Some(String::from("new")));
    // peer 8 asks peer 1 before it turns to its own copy
    assert_eq!(net.get_value_at(0, 1), Some(String::from("new")));
    assert_eq!(net.get_value_at(1, 1), Some(String::from("new")));
    assert_eq!(net.get_value_at(0, 1), Some(String::from("new")));
}

#[test]
fn the_own_copy_is_returned_when_nobody_nearer_keeps_one() {
    let mut net: Network<String> = Network::with_settings(3, 1, 32);
    net.join(NodeId(1), None);
    net.join(NodeId(8), Some(0));
    net.insert_value_at(0, 1, String::from("mine"));
    assert_eq!(holders(&net, 1), vec![NodeId(1)]);
    // peer 1 is nearest to the key itself: it asks nobody
    let ids_before = net.node(1).recent();
    assert_eq!(net.get_value_at(0, 1), Some(String::from("mine")));
    assert_eq!(net.node(1).recent(), ids_before);
    // peer 8 keeps nothing and finds the copy at peer 1
    assert_eq!(net.get_value_at(1, 1), Some(String::from("mine")));
}

#[test]
fn a_peer_that_never_heard_of_the_new_holder_returns_its_older_copy() {
    let mut net: Network<String> = Network::with_settings(3, 1, 32);
    net.join(NodeId(8), None);
    net.join(NodeId(12), Some(0));
    net.insert_value_at(1, 1, String::from("old"));
    assert_eq!(holders(&net, 1), vec![NodeId(8)]);
    net.join(NodeId(1), Some(1));
    assert_eq!(net.node(0).neighbors(), vec![NodeId(12)]);
    net.insert_value_at(1, 1, String::from("new"));
    assert_eq!(net.node(2).get(1), Some(String::from("new")));
    // through the peer that stored it, the newer value comes back
    assert_eq!(net.get_value_at(1, 1), Some(String::from("new")));
    // peer 8 knows peer 12 only, which is farther from the key than itself
    assert_eq!(net.get_value_at(0, 1), Some(String::from("old")));
}

#[test]
fn messages_clone_and_compare() {
    let m: Message<String> = Message::request(
        NodeId(1),
        NodeId(2),
        Cookie(3),
        Payload::Store { key: 4, value: String::from("v") },
    );
    let copy = m.clone();
    assert!(m == copy);
    assert_eq!(copy.cookie, Cookie(3));
    let answer = m.answer(Reply::Found(String::from("v")));
    assert!(answer != m);
    assert!(answer == answer.clone());
    assert!(matches!(answer.body.clone(), Body::Reply(Reply::Found(_))));
    assert!(matches!(Payload::<String>::default(), Payload::Ping));
    assert!(Payload::<String>::FindValue(4) == Payload::FindValue(4));
    assert!(Payload::<String>::FindValue(4) != Payload::FindNode(NodeId(4)));
    assert!(
        Payload::Store { key: 1, value: String::from("a") }
            != Payload::Store { key: 1, value: String::from("b") }
    );
    assert!(Payload::<String>::Ping == Payload::default());
    assert!(matches!(Reply::<String>::Nodes(vec![NodeId(1)]).clone(), Reply::Nodes(_)));
}

#[test]
fn a_retrieval_passes_peers_that_are_gone() {
    // one request per round: alpha 3, but a single answer is enough
    let mut net: Network<String> = Network::with_settings(3, 1, 32);
    net.join(NodeId(1), None);
    net.join(NodeId(2), Some(0));
    net.join(NodeId(3), Some(0));
    assert_eq!(net.node(0).neighbors(), vec![NodeId(2), NodeId(3)]);
    assert_eq!(net.kill_node_at(2), NodeId(3));
    net.insert_value_at(0, 3, String::from("x"));
    // peer 3 is nearest to the key and gone; the copy is at peer 2
    assert_eq!(holders(&net, 3), vec![NodeId(2)]);
    let (lk, value) = net.lookup(0, NodeId(3), true);
    assert_eq!(value, Some(String::from("x")));
    assert_eq!(lk.rounds(), 2);
    assert_eq!(lk.asked(), vec![NodeId(3), NodeId(2)]);
    assert_eq!(net.get_value_at(0, 3), Some(String::from("x")));
}

#[test]
fn a_lookup_gets_no_more_than_k_answers() {
    for trial in 0..30 {
        let k = 1 + trial % 4;
        let mut net = churned(3, k);
        for entry in 0..net.len() {
            let (lk, _) = net.lookup(entry, NodeId::new(), false);
            assert!(lk.answered().len() <= k);
            assert!(lk.rounds() <= lk.asked().len());
            assert!(lk.asked().len() <= 3 * lk.rounds());
        }
    }
}

#[test]
fn two_retrievals_return_the_same_value() {
    for _ in 0..30 {
        let mut net = churned(3, 2);
        let key = NodeId::new().0;
        net.insert_value_at(pick(net.len()), key, String::from("v"));
        let mut seen = Vec::new();
        for entry in 0..net.len() {
            if let Some(v) = net.get_value_at(entry, key) {
                seen.push(v);
            }
        }
        assert!(!seen.is_empty());
        assert!(seen.iter().all(|v| v == "v"));
    }
}

#[test]
fn a_later_insertion_through_the_same_peer_wins() {
    for trial in 0..30 {
        let k = 1 + trial % 3;
        let mut net = churned(3, k);
        let key = NodeId::new().0;
        let entry = pick(net.len());
        net.insert_value_at(entry, key, String::from("first"));
        net.kill_node();
        net.add_node();
        let me = net.ids();
        if entry >= net.len() {
            continue;
        }
        net.insert_value_at(entry, key, String::from("second"));
        assert_eq!(net.ids(), me);
        assert_eq!(net.get_value_at(entry, key), Some(String::from("second")));
        assert_eq!(net.get_value_at(entry, key), Some(String::from("second")));
    }
}
