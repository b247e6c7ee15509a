use kademlia::ident::NodeId;
use kademlia::lookup::{Lookup, DEFAULT_ALPHA, DEFAULT_MAX_ROUNDS};

fn ids(values: &[u128]) -> Vec<NodeId> {
    values.iter().map(|&v| NodeId(v)).collect()
}

#[test]
fn defaults_are_three_requests_and_thirty_two_rounds() {
    assert_eq!(DEFAULT_ALPHA, 3);
    assert_eq!(DEFAULT_MAX_ROUNDS, 32);
}

#[test]
fn start_orders_the_seeds_and_leaves_the_origin_out() {
    let lk = Lookup::start(NodeId(100), NodeId(0), &ids(&[5, 100, 2, 9, 5]), 3, 20, 32);
    assert_eq!(lk.shortlist(), ids(&[2, 5, 9]));
    assert!(lk.asked().is_empty());
    assert!(lk.answered().is_empty());
    assert!(lk.found().is_empty());
    assert_eq!(lk.rounds(), 0);
    assert_eq!(lk.rounds_left(), 32);
    assert!(!lk.is_done());
}

#[test]
fn a_round_asks_the_closest_unasked() {
    let mut lk = Lookup::start(NodeId(100), NodeId(0), &ids(&[5, 2, 9, 7]), 2, 20, 32);
    assert_eq!(lk.next_round(), ids(&[2, 5]));
    assert_eq!(lk.asked(), ids(&[2, 5]));
    assert_eq!(lk.rounds(), 1);
    assert!(lk.awaits(NodeId(2)));
    assert!(!lk.awaits(NodeId(7)));
    lk.record_timeout(NodeId(2));
    lk.record_timeout(NodeId(5));
    lk.finish_round();
    assert!(!lk.is_done());
    assert_eq!(lk.next_round(), ids(&[7, 9]));
    assert_eq!(lk.rounds(), 2);
}

#[test]
fn answers_are_merged_without_the_origin_and_the_asked() {
    let mut lk = Lookup::start(NodeId(100), NodeId(0), &ids(&[8, 12]), 3, 20, 32);
    assert_eq!(lk.next_round(), ids(&[8, 12]));
    lk.record_response(NodeId(8), &ids(&[4, 100, 12, 6, 4]));
    assert_eq!(lk.shortlist(), ids(&[4, 6, 8, 12]));
    assert_eq!(lk.answered(), ids(&[8]));
    assert!(!lk.awaits(NodeId(8)));
    lk.record_timeout(NodeId(12));
    assert_eq!(lk.shortlist(), ids(&[4, 6, 8]));
    // a silent candidate does not come back when somebody lists it again
    lk.record_response(NodeId(8), &ids(&[12]));
    assert_eq!(lk.shortlist(), ids(&[4, 6, 8]));
    lk.finish_round();
    assert!(!lk.is_done());
    assert_eq!(lk.next_round(), ids(&[4, 6]));
}

#[test]
fn a_round_without_improvement_ends_the_lookup() {
    let mut lk = Lookup::start(NodeId(100), NodeId(0), &ids(&[3, 5]), 3, 20, 32);
    assert_eq!(lk.next_round(), ids(&[3, 5]));
    lk.record_response(NodeId(3), &ids(&[9]));
    lk.record_response(NodeId(5), &ids(&[4]));
    lk.finish_round();
    assert!(lk.is_done());
    assert!(lk.next_round().is_empty());
    assert_eq!(lk.rounds(), 1);
    assert_eq!(lk.found(), ids(&[3, 5]));
    assert_eq!(lk.shortlist(), ids(&[3, 4, 5, 9]));
}

#[test]
fn an_improving_round_is_followed_by_another() {
    let mut lk = Lookup::start(NodeId(100), NodeId(0), &ids(&[8]), 3, 20, 32);
    assert_eq!(lk.next_round(), ids(&[8]));
    lk.record_response(NodeId(8), &ids(&[4, 2]));
    lk.finish_round();
    assert!(!lk.is_done());
    assert_eq!(lk.next_round(), ids(&[2, 4]));
    lk.record_response(NodeId(4), &ids(&[1]));
    lk.record_response(NodeId(2), &ids(&[]));
    lk.finish_round();
    assert!(!lk.is_done());
    assert_eq!(lk.next_round(), ids(&[1]));
    lk.record_response(NodeId(1), &ids(&[2, 4]));
    lk.finish_round();
    assert!(lk.is_done());
    assert_eq!(lk.rounds(), 3);
    assert_eq!(lk.answered(), ids(&[1, 2, 4, 8]));
}

#[test]
fn enough_answers_end_the_lookup() {
    let mut lk = Lookup::start(NodeId(100), NodeId(0), &ids(&[8, 9]), 1, 2, 32);
    assert_eq!(lk.next_round(), ids(&[8]));
    lk.record_response(NodeId(8), &ids(&[4]));
    lk.finish_round();
    assert!(!lk.is_done());
    assert_eq!(lk.next_round(), ids(&[4]));
    lk.record_response(NodeId(4), &ids(&[1]));
    lk.finish_round();
    // a closer candidate is known, but two have answered
    assert!(lk.is_done());
    assert_eq!(lk.found(), ids(&[4, 8]));
    assert!(lk.next_round().is_empty());
}

#[test]
fn a_round_asks_no_more_than_are_missing_for_k_answers() {
    let mut lk = Lookup::start(NodeId(100), NodeId(0), &ids(&[8, 9, 3, 12]), 3, 2, 32);
    assert_eq!(lk.next_round(), ids(&[3, 8]));
    lk.record_timeout(NodeId(3));
    lk.record_response(NodeId(8), &ids(&[1, 2]));
    lk.finish_round();
    // one answer is missing: the next round asks one candidate
    assert!(!lk.is_done());
    assert_eq!(lk.next_round(), ids(&[1]));
    lk.record_response(NodeId(1), &ids(&[]));
    lk.finish_round();
    assert!(lk.is_done());
    assert_eq!(lk.answered(), ids(&[1, 8]));
    assert_eq!(lk.found(), ids(&[1, 8]));
    assert_eq!(lk.asked(), ids(&[3, 8, 1]));
    assert_eq!(lk.shortlist(), ids(&[1, 2, 8, 9, 12]));
    assert!(lk.next_round().is_empty());
}

#[test]
fn nobody_is_asked_once_k_have_answered() {
    let mut lk = Lookup::start(NodeId(100), NodeId(0), &ids(&[8, 9, 3]), 3, 2, 32);
    assert_eq!(lk.next_round(), ids(&[3, 8]));
    lk.record_response(NodeId(3), &ids(&[1]));
    lk.record_response(NodeId(8), &ids(&[]));
    // without the end of the round being told, the next round still asks nobody
    assert!(lk.next_round().is_empty());
    assert!(lk.is_done());
    assert_eq!(lk.found(), ids(&[3, 8]));
    let mut none = Lookup::start(NodeId(100), NodeId(0), &ids(&[8, 9, 3]), 3, 0, 32);
    assert!(none.next_round().is_empty());
}

#[test]
fn the_ceiling_of_rounds_ends_the_lookup() {
    let mut lk = Lookup::start(NodeId(100), NodeId(0), &ids(&[64]), 1, 20, 3);
    let mut next = 32u128;
    let mut rounds = 0;
    loop {
        let batch = lk.next_round();
        if batch.is_empty() {
            break;
        }
        assert_eq!(batch.len(), 1);
        lk.record_response(batch[0], &ids(&[next]));
        next /= 2;
        lk.finish_round();
        rounds += 1;
    }
    assert_eq!(rounds, 3);
    assert_eq!(lk.rounds(), 3);
    assert_eq!(lk.rounds_left(), 0);
    assert!(lk.is_done());
    assert_eq!(lk.asked(), ids(&[64, 32, 16]));
}

#[test]
fn a_lookup_with_nobody_to_ask_is_over_at_once() {
    let mut lk = Lookup::start(NodeId(100), NodeId(0), &ids(&[]), 3, 20, 32);
    assert!(lk.next_round().is_empty());
    assert!(lk.is_done());
    assert_eq!(lk.rounds(), 0);
    let mut only_origin = Lookup::start(NodeId(100), NodeId(0), &ids(&[100]), 3, 20, 32);
    assert!(only_origin.next_round().is_empty());
    let mut no_budget = Lookup::start(NodeId(100), NodeId(0), &ids(&[1]), 3, 20, 0);
    assert!(no_budget.next_round().is_empty());
    let mut no_fanout = Lookup::start(NodeId(100), NodeId(0), &ids(&[1]), 0, 20, 32);
    assert!(no_fanout.next_round().is_empty());
    assert!(no_fanout.is_done());
}

#[test]
fn silence_alone_does_not_end_the_lookup() {
    let mut lk = Lookup::start(NodeId(100), NodeId(0), &ids(&[1, 2, 3, 4]), 2, 20, 32);
    assert_eq!(lk.next_round(), ids(&[1, 2]));
    lk.record_timeout(NodeId(1));
    lk.record_timeout(NodeId(2));
    lk.finish_round();
    assert!(!lk.is_done());
    assert_eq!(lk.shortlist(), ids(&[3, 4]));
    assert_eq!(lk.next_round(), ids(&[3, 4]));
    lk.record_timeout(NodeId(3));
    lk.record_response(NodeId(4), &ids(&[]));
    lk.finish_round();
    // the closest candidate left is no nearer than when the round began
    assert!(lk.is_done());
    assert_eq!(lk.found(), ids(&[4]));
}

#[test]
fn reports_that_nobody_waits_for_are_ignored() {
    let mut lk = Lookup::start(NodeId(100), NodeId(0), &ids(&[1, 2]), 1, 20, 32);
    lk.record_response(NodeId(1), &ids(&[7]));
    lk.record_timeout(NodeId(2));
    assert_eq!(lk.shortlist(), ids(&[1, 2]));
    assert!(lk.answered().is_empty());
    assert_eq!(lk.next_round(), ids(&[1]));
    lk.record_response(NodeId(9), &ids(&[7]));
    lk.record_response(NodeId(2), &ids(&[7]));
    assert_eq!(lk.shortlist(), ids(&[1, 2]));
    lk.record_response(NodeId(1), &ids(&[7]));
    lk.record_response(NodeId(1), &ids(&[8]));
    assert_eq!(lk.shortlist(), ids(&[1, 2, 7]));
    assert_eq!(lk.answered(), ids(&[1]));
}

#[test]
fn nobody_is_asked_twice() {
    let mut lk = Lookup::start(NodeId(100), NodeId(0), &ids(&[16, 17, 18]), 2, 20, 32);
    let mut asked: Vec<NodeId> = Vec::new();
    let mut next = 15u128;
    loop {
        let batch = lk.next_round();
        if batch.is_empty() {
            break;
        }
        assert!(batch.len() <= 2);
        for id in batch {
            assert!(!asked.contains(&id));
            asked.push(id);
            if next > 0 {
                lk.record_response(id, &ids(&[next, 16, 17]));
                next -= 1;
            } else {
                lk.record_timeout(id);
            }
        }
        lk.finish_round();
    }
    assert!(lk.rounds() <= 32);
    assert!(asked.len() <= 2 * lk.rounds());
    assert_eq!(lk.asked(), asked);
}
