use kademlia::ident::{Cookie, NodeId};
use kademlia::message::{Body, Message, Payload, Reply};
use kademlia::node::{Handled, Node, Verdict, DEFAULT_K};

fn ask(src: u128, dst: u128, cookie: u128, payload: Payload<String>) -> Message<String> {
    Message::request(NodeId(src), NodeId(dst), Cookie(cookie), payload)
}

fn reply(src: u128, dst: u128, cookie: u128, answer: Reply<String>) -> Message<String> {
    ask(dst, src, cookie, Payload::Ping).answer(answer)
}

fn peer(id: u128, k: usize) -> Node<String> {
    Node::with_id(NodeId(id), k)
}

fn replied(out: Handled<String>) -> Message<String> {
    match out {
        Handled::Replied(m) => m,
        other => panic!("expected a reply, got {:?}", other),
    }
}

fn nodes_of(m: &Message<String>) -> Vec<NodeId> {
    match &m.body {
        Body::Reply(Reply::Nodes(list)) => list.clone(),
        other => panic!("expected a candidate list, got {:?}", other),
    }
}

#[test]
fn a_new_node_is_empty() {
    let n: Node<String> = Node::new();
    assert_eq!(n.k(), DEFAULT_K);
    assert_eq!(DEFAULT_K, 20);
    assert!(n.neighbors().is_empty());
    assert!(n.recent().is_empty());
    assert_eq!(n.pending_len(), 0);
    assert_eq!(n.open_len(), 0);
    assert_eq!(n.get(1), None);
    let m: Node<String> = Node::new();
    assert_ne!(n.get_id(), m.get_id());
}

#[test]
fn with_id_names_the_node() {
    let n = peer(77, 3);
    assert_eq!(n.get_id(), NodeId(77));
    assert_eq!(n.k(), 3);
}

#[test]
fn store_keeps_and_overwrites() {
    let mut n = peer(1, 3);
    n.store(5, String::from("a"));
    assert_eq!(n.get(5), Some(String::from("a")));
    n.store(5, String::from("b"));
    assert_eq!(n.get(5), Some(String::from("b")));
    assert_eq!(n.get(6), None);
}

#[test]
fn ping_is_acknowledged_and_the_sender_remembered() {
    let mut n = peer(1, 3);
    let out = n.handle_message(&ask(2, 1, 99, Payload::Ping));
    let r = replied(out);
    assert_eq!(r.src, NodeId(1));
    assert_eq!(r.dst, NodeId(2));
    assert_eq!(r.cookie, Cookie(99));
    assert!(matches!(r.body, Body::Reply(Reply::Ack)));
    assert_eq!(n.neighbors(), vec![NodeId(2)]);
    assert_eq!(n.recent(), vec![NodeId(2)]);
    assert_eq!(n.get(0), None);
}

#[test]
fn store_request_is_applied_and_acknowledged() {
    let mut n = peer(1, 3);
    let out = n.handle_message(&ask(
        2,
        1,
        7,
        Payload::Store { key: 5, value: String::from("v") },
    ));
    let r = replied(out);
    assert!(matches!(r.body, Body::Reply(Reply::Ack)));
    assert_eq!(r.cookie, Cookie(7));
    assert_eq!(n.get(5), Some(String::from("v")));
    let out = n.handle_message(&ask(
        3,
        1,
        8,
        Payload::Store { key: 5, value: String::from("w") },
    ));
    assert!(matches!(replied(out).body, Body::Reply(Reply::Ack)));
    assert_eq!(n.get(5), Some(String::from("w")));
    assert_eq!(n.neighbors(), vec![NodeId(2), NodeId(3)]);
}

#[test]
fn find_node_lists_the_k_closest_known() {
    let mut n = peer(100, 3);
    for i in [8u128, 1, 12, 3, 6] {
        n.hear(NodeId(i));
    }
    let out = n.handle_message(&ask(50, 100, 1, Payload::FindNode(NodeId(7))));
    let r = replied(out);
    // distances to 7: 8 -> 15, 1 -> 6, 12 -> 11, 3 -> 4, 6 -> 1
    assert_eq!(nodes_of(&r), vec![NodeId(6), NodeId(3), NodeId(1)]);
    // the asker is merged after the answer was made
    assert!(n.neighbors().contains(&NodeId(50)));
    assert_eq!(n.recent().last(), Some(&NodeId(50)));
}

#[test]
fn find_value_returns_the_value_or_candidates() {
    let mut n = peer(100, 2);
    n.hear(NodeId(4));
    n.hear(NodeId(9));
    n.hear(NodeId(10));
    n.store(8, String::from("eight"));
    let hit = replied(n.handle_message(&ask(50, 100, 1, Payload::FindValue(8))));
    match hit.body {
        Body::Reply(Reply::Found(v)) => assert_eq!(v, "eight"),
        other => panic!("expected the value, got {:?}", other),
    }
    let miss = replied(n.handle_message(&ask(50, 100, 2, Payload::FindValue(11))));
    // distances to 11: 4 -> 15, 9 -> 2, 10 -> 1, 50 -> 57
    assert_eq!(nodes_of(&miss), vec![NodeId(10), NodeId(9)]);
}

#[test]
fn envelopes_for_others_are_dropped() {
    let mut n = peer(1, 3);
    let out = n.handle_message(&ask(2, 9, 1, Payload::Store { key: 5, value: String::from("v") }));
    assert!(matches!(out, Handled::Dropped));
    assert!(n.neighbors().is_empty());
    assert_eq!(n.get(5), None);
}

#[test]
fn a_node_does_not_list_itself() {
    let mut n = peer(1, 3);
    let out = n.handle_message(&ask(1, 1, 4, Payload::Ping));
    let r = replied(out);
    assert_eq!(r.src, NodeId(1));
    assert_eq!(r.dst, NodeId(1));
    assert!(n.neighbors().is_empty());
    n.hear(NodeId(1));
    assert!(n.neighbors().is_empty());
    assert!(n.recent().is_empty());
}

#[test]
fn answers_wait_only_for_open_requests() {
    let mut n = peer(1, 3);
    let stale = n.handle_message(&reply(2, 1, 5, Reply::Ack));
    assert!(matches!(stale, Handled::Dropped));
    let outbound = n.send_message_with(NodeId(2), Payload::Ping, 5);
    assert_eq!(outbound.cookie, Cookie(5));
    let waiting = n.handle_message(&reply(2, 1, 5, Reply::Ack));
    assert!(matches!(waiting, Handled::Deferred));
    // answers do not touch the routing knowledge until a request takes them
    assert!(n.neighbors().is_empty());
}

#[test]
fn receive_message_serves_a_request_at_once() {
    let mut n = peer(1, 3);
    let replies = n.receive_message(ask(2, 1, 11, Payload::Ping));
    assert_eq!(replies.len(), 1);
    assert_eq!(replies[0].dst, NodeId(2));
    assert_eq!(replies[0].cookie, Cookie(11));
    assert_eq!(n.pending_len(), 0);
    let none = n.receive_message(ask(2, 3, 12, Payload::Ping));
    assert!(none.is_empty());
    assert_eq!(n.pending_len(), 0);
}

#[test]
fn drain_answers_in_order_and_keeps_what_is_awaited() {
    let mut n = peer(1, 3);
    let first = n.send_message_with(NodeId(8), Payload::Ping, 100);
    let second = n.send_message_with(NodeId(9), Payload::Ping, 200);
    assert_eq!(second.cookie, Cookie(200));
    // while the first request waits, other envelopes arrive and are queued
    let arrivals = vec![
        ask(2, 1, 1, Payload::Store { key: 5, value: String::from("v") }),
        reply(9, 1, 200, Reply::Ack),
        ask(3, 1, 2, Payload::FindValue(5)),
        reply(7, 1, 300, Reply::Ack),
        ask(4, 6, 3, Payload::Ping),
    ];
    for m in arrivals {
        assert!(matches!(n.accept(&first, m), Verdict::Queued));
    }
    assert_eq!(n.pending_len(), 5);
    let replies = n.drain_messages();
    assert_eq!(replies.len(), 2);
    assert_eq!(replies[0].dst, NodeId(2));
    assert_eq!(replies[0].cookie, Cookie(1));
    assert!(matches!(replies[0].body, Body::Reply(Reply::Ack)));
    assert_eq!(replies[1].dst, NodeId(3));
    assert_eq!(replies[1].cookie, Cookie(2));
    // the value stored earlier in the same pass is found
    match &replies[1].body {
        Body::Reply(Reply::Found(v)) => assert_eq!(v, "v"),
        other => panic!("expected the value, got {:?}", other),
    }
    // only the answer to the second request, which is still open, stays
    assert_eq!(n.pending_len(), 1);
    let again = n.drain_messages();
    assert!(again.is_empty());
    assert_eq!(n.pending_len(), 1);
    let late = n.give_up(&second);
    assert_eq!(late.map(|m| m.src), Some(NodeId(9)));
    assert_eq!(n.pending_len(), 0);
}

#[test]
fn tokens_of_open_requests_never_repeat() {
    let mut n = peer(1, 3);
    let mut seen: Vec<Cookie> = Vec::new();
    for i in 0..300u128 {
        let m = n.send_message(NodeId(2 + i), Payload::Ping);
        assert_eq!(m.src, NodeId(1));
        assert_eq!(m.dst, NodeId(2 + i));
        assert!(matches!(m.body, Body::Request(Payload::Ping)));
        assert!(!seen.contains(&m.cookie));
        assert!(n.awaits(m.cookie));
        seen.push(m.cookie);
    }
    assert_eq!(n.open_len(), 300);
}

#[test]
fn a_repeated_draw_gets_the_next_free_token() {
    let mut n = peer(1, 3);
    let a = n.send_message_with(NodeId(2), Payload::Ping, 10);
    let b = n.send_message_with(NodeId(2), Payload::Ping, 10);
    let c = n.send_message_with(NodeId(2), Payload::Ping, 10);
    let d = n.send_message_with(NodeId(2), Payload::Ping, 11);
    assert_eq!(a.cookie, Cookie(10));
    assert_eq!(b.cookie, Cookie(11));
    assert_eq!(c.cookie, Cookie(12));
    assert_eq!(d.cookie, Cookie(13));
    let top = n.send_message_with(NodeId(2), Payload::Ping, u128::MAX);
    let round = n.send_message_with(NodeId(2), Payload::Ping, u128::MAX);
    assert_eq!(top.cookie, Cookie(u128::MAX));
    assert_eq!(round.cookie, Cookie(0));
    assert_eq!(n.open_len(), 6);
}

#[test]
fn accept_ignores_the_echo_of_the_request() {
    let mut n = peer(1, 3);
    let outbound = n.send_message_with(NodeId(2), Payload::FindValue(5), 40);
    let verdict = n.accept(&outbound, outbound.duplicate());
    assert!(matches!(verdict, Verdict::Echo));
    assert_eq!(n.open_len(), 1);
    assert_eq!(n.pending_len(), 0);
    assert!(n.neighbors().is_empty());
}

#[test]
fn accept_takes_the_envelope_with_the_token() {
    let mut n = peer(1, 3);
    let outbound = n.send_message_with(NodeId(2), Payload::Ping, 40);
    let verdict = n.accept(&outbound, reply(2, 1, 40, Reply::Ack));
    match verdict {
        Verdict::Matched(m) => {
            assert_eq!(m.src, NodeId(2));
            assert!(matches!(m.body, Body::Reply(Reply::Ack)));
        }
        other => panic!("expected a match, got {:?}", other),
    }
    assert_eq!(n.open_len(), 0);
    assert!(!n.awaits(Cookie(40)));
    assert_eq!(n.neighbors(), vec![NodeId(2)]);
}

#[test]
fn accept_queues_everything_else() {
    let mut n = peer(1, 3);
    let outbound = n.send_message_with(NodeId(2), Payload::Ping, 40);
    let verdict = n.accept(&outbound, reply(2, 1, 41, Reply::Ack));
    assert!(matches!(verdict, Verdict::Queued));
    assert_eq!(n.open_len(), 1);
    assert_eq!(n.pending_len(), 1);
    // a request by the same sender under the same token, but with another
    // payload, is no echo: it carries the token and is taken
    let other = ask(1, 2, 40, Payload::FindValue(1));
    assert!(matches!(n.accept(&outbound, other), Verdict::Matched(_)));
}

#[test]
fn give_up_without_a_late_answer_reports_nothing() {
    let mut n = peer(1, 3);
    let outbound = n.send_message_with(NodeId(2), Payload::Ping, 40);
    assert_eq!(n.open_len(), 1);
    assert!(n.give_up(&outbound).is_none());
    assert_eq!(n.open_len(), 0);
    assert!(n.neighbors().is_empty());
}

#[test]
fn give_up_takes_the_answer_queued_last() {
    let mut n = peer(1, 3);
    let first = n.send_message_with(NodeId(8), Payload::Ping, 100);
    let second = n.send_message_with(NodeId(9), Payload::Ping, 200);
    assert!(matches!(n.accept(&first, reply(9, 1, 200, Reply::Ack)), Verdict::Queued));
    assert!(matches!(
        n.accept(&first, reply(5, 1, 200, Reply::Nodes(vec![NodeId(3)]))),
        Verdict::Queued
    ));
    assert!(matches!(n.accept(&first, reply(6, 1, 300, Reply::Ack)), Verdict::Queued));
    let late = n.give_up(&second).expect("a late answer is queued");
    assert_eq!(late.src, NodeId(5));
    assert_eq!(nodes_of(&late), vec![NodeId(3)]);
    assert_eq!(n.pending_len(), 2);
    assert_eq!(n.open_len(), 1);
    assert_eq!(n.neighbors(), vec![NodeId(5)]);
    // what is left under the closed token is stale and leaves with the next pass
    let replies = n.drain_messages();
    assert!(replies.is_empty());
    assert_eq!(n.pending_len(), 0);
}

#[test]
fn get_response_returns_the_first_match_and_queues_the_rest() {
    let mut n = peer(1, 3);
    let outbound = n.send_message_with(NodeId(2), Payload::FindNode(NodeId(7)), 40);
    let arrivals = vec![
        outbound.duplicate(),
        ask(3, 1, 41, Payload::Ping),
        reply(2, 1, 40, Reply::Nodes(vec![NodeId(6)])),
        reply(4, 1, 40, Reply::Ack),
        ask(5, 1, 42, Payload::Ping),
    ];
    let answer = n.get_response(&outbound, arrivals).expect("an answer arrived");
    assert_eq!(answer.src, NodeId(2));
    assert_eq!(nodes_of(&answer), vec![NodeId(6)]);
    assert_eq!(n.open_len(), 0);
    // one request queued before the match, two envelopes after it
    assert_eq!(n.pending_len(), 3);
    let replies = n.drain_messages();
    assert_eq!(replies.len(), 2);
    assert_eq!(replies[0].dst, NodeId(3));
    assert_eq!(replies[1].dst, NodeId(5));
    assert_eq!(n.pending_len(), 0);
}

#[test]
fn get_response_without_a_match_times_out() {
    let mut n = peer(1, 3);
    let outbound = n.send_message_with(NodeId(2), Payload::Ping, 40);
    let arrivals = vec![outbound.duplicate(), ask(3, 1, 41, Payload::Ping)];
    assert!(n.get_response(&outbound, arrivals).is_none());
    assert_eq!(n.open_len(), 0);
    assert_eq!(n.pending_len(), 1);
    let nothing = n.get_response(&outbound, Vec::new());
    assert!(nothing.is_none());
}

#[test]
fn get_response_finds_a_late_answer_at_the_deadline() {
    let mut n = peer(1, 3);
    let first = n.send_message_with(NodeId(8), Payload::Ping, 100);
    let second = n.send_message_with(NodeId(9), Payload::Ping, 200);
    // the answer to the second request arrives while the first one waits
    let got = n.get_response(&first, vec![reply(9, 1, 200, Reply::Ack), reply(8, 1, 100, Reply::Ack)]);
    assert_eq!(got.map(|m| m.src), Some(NodeId(8)));
    assert_eq!(n.pending_len(), 1);
    let late = n.get_response(&second, Vec::new());
    assert_eq!(late.map(|m| m.src), Some(NodeId(9)));
    assert_eq!(n.pending_len(), 0);
    assert_eq!(n.open_len(), 0);
}

#[test]
fn find_node_starts_from_the_closest_known() {
    let mut n = peer(100, 3);
    for i in [8u128, 1, 12, 3, 6] {
        n.hear(NodeId(i));
    }
    let lk = n.find_node(NodeId(7), 2, 5);
    assert_eq!(lk.target(), NodeId(7));
    assert_eq!(lk.shortlist(), vec![NodeId(6), NodeId(3)]);
    assert_eq!(lk.rounds(), 0);
    assert!(!lk.is_done());
}

#[test]
fn messages_compare_and_copy_by_content() {
    let a = ask(1, 2, 3, Payload::Store { key: 4, value: String::from("v") });
    let b = a.duplicate();
    assert!(a.same(&b));
    assert!(a.is_request());
    let c = ask(1, 2, 3, Payload::Store { key: 4, value: String::from("w") });
    assert!(!a.same(&c));
    assert!(!a.same(&ask(1, 2, 4, Payload::Store { key: 4, value: String::from("v") })));
    assert!(!a.same(&ask(1, 5, 3, Payload::Store { key: 4, value: String::from("v") })));
    let r = a.answer(Reply::Nodes(vec![NodeId(1), NodeId(2)]));
    assert_eq!(r.src, NodeId(2));
    assert_eq!(r.dst, NodeId(1));
    assert_eq!(r.cookie, Cookie(3));
    assert!(!r.is_request());
    assert!(r.same(&r.duplicate()));
    assert!(!r.same(&a.answer(Reply::Nodes(vec![NodeId(2), NodeId(1)]))));
    assert!(!r.same(&a.answer(Reply::Ack)));
    assert!(!r.same(&a));
}

#[test]
fn the_echo_of_a_request_is_never_its_late_answer() {
    let mut n = peer(1, 3);
    let b = n.send_message_with(NodeId(8), Payload::Ping, 100);
    let a = n.send_message_with(NodeId(9), Payload::Ping, 200);
    // while the second request is judged, a copy of the first one arrives
    assert!(matches!(n.accept(&a, b.duplicate()), Verdict::Queued));
    assert_eq!(n.pending_len(), 1);
    assert!(n.give_up(&b).is_none());
    assert!(!n.awaits(b.cookie));
    // the echo is still queued; it is addressed to another peer and leaves
    // with the next pass
    assert_eq!(n.pending_len(), 1);
    assert!(n.drain_messages().is_empty());
    assert_eq!(n.pending_len(), 0);
    assert!(n.neighbors().is_empty());
}

#[test]
fn get_response_with_only_its_echo_queued_reports_nothing() {
    let mut n = peer(1, 3);
    let b = n.send_message_with(NodeId(8), Payload::FindValue(4), 100);
    let a = n.send_message_with(NodeId(9), Payload::Ping, 200);
    assert!(matches!(n.accept(&a, b.duplicate()), Verdict::Queued));
    assert!(n.get_response(&b, Vec::new()).is_none());
    assert!(n.get_response(&a, vec![a.duplicate()]).is_none());
    assert_eq!(n.open_len(), 0);
}

#[test]
fn a_late_answer_is_found_behind_the_echo() {
    let mut n = peer(1, 3);
    let b = n.send_message_with(NodeId(8), Payload::Ping, 100);
    let a = n.send_message_with(NodeId(9), Payload::Ping, 200);
    assert!(matches!(n.accept(&a, reply(8, 1, 100, Reply::Ack)), Verdict::Queued));
    assert!(matches!(n.accept(&a, b.duplicate()), Verdict::Queued));
    let late = n.give_up(&b).expect("the answer was queued before the echo");
    assert_eq!(late.src, NodeId(8));
    assert!(matches!(late.body, Body::Reply(Reply::Ack)));
    assert!(late.answers(&b));
    assert!(!b.answers(&b));
    assert_eq!(n.pending_len(), 1);
}
