use clique::consensus::paxos::{select_proposal, Paxos};
use clique::consensus::FastPaxos;
use clique::transport::client::{Client, RequestType};
use clique::transport::proto::{Consensus, FastRoundPhase2bMessage, Phase1bMessage, Rank, RequestKind};
use clique::transport::{Message, Request};

fn vote(sender: &str, config_id: i64, endpoints: Vec<&str>) -> Consensus {
    Consensus::FastRoundPhase2bMessage(FastRoundPhase2bMessage {
        sender: sender.to_string(),
        config_id,
        endpoints: endpoints.into_iter().map(|e| e.to_string()).collect(),
    })
}

fn promise(sender: &str, rnd: Rank, vrnd: Rank, vval: Vec<&str>) -> Phase1bMessage {
    Phase1bMessage {
        sender: sender.to_string(),
        config_id: 0,
        rnd,
        vrnd,
        vval: vval.into_iter().map(|e| e.to_string()).collect(),
    }
}

#[test]
fn propose_sends_a_vote_to_every_member() {
    let mut f = FastPaxos::new("a".to_string(), 3, 0);
    f.propose(vec!["x".to_string()]);
    let view = vec!["a".to_string(), "b".to_string(), "c".to_string()];
    let out = f.take_messages(&view);
    assert_eq!(out.len(), 3);
    for ((to, msg), member) in out.iter().zip(view.iter()) {
        assert_eq!(to, member);
        match msg {
            Message::Request(RequestKind::Consensus(Consensus::FastRoundPhase2bMessage(m))) => {
                assert_eq!(m.sender, "a");
                assert_eq!(m.endpoints, vec!["x".to_string()]);
            }
            _ => panic!("expected a fast-round vote"),
        }
    }
    assert!(f.take_messages(&view).is_empty());
}

#[test]
fn votes_send_nothing_back() {
    let mut f = FastPaxos::new("a".to_string(), 3, 0);
    let view = vec!["a".to_string()];
    assert!(f.step(vote("b", 0, vec!["x"]), &view).is_empty());
    assert!(f.step(vote("b", 0, vec!["x"]), &view).is_empty());
    assert!(f.step(vote("c", 1, vec!["x"]), &view).is_empty());
    assert_eq!(f.size(), 3);
}

#[test]
fn classic_round_messages_stay_with_paxos() {
    // The classic round queues its Phase 1a message with the Paxos instance;
    // the fast-round queue that `take_messages` hands out stays empty.
    let mut f = FastPaxos::new("a".to_string(), 3, 0);
    f.start_classic_round();
    let out = f.take_messages(&vec!["a".to_string(), "b".to_string()]);
    assert!(out.is_empty());
}

#[test]
fn selection_proposes_the_value_of_the_highest_round() {
    let low = Rank { round: 1, node_index: 0 };
    let high = Rank { round: 2, node_index: 0 };
    assert!(select_proposal(&[], 5).is_empty());
    // The one value voted in the highest round is proposed again.
    let msgs = [promise("a", high, high, vec!["x"]), promise("b", high, low, vec![])];
    assert_eq!(select_proposal(&msgs, 5), vec!["x".to_string()]);
    let msgs = [promise("a", high, low, vec!["y"]), promise("b", high, high, vec!["x"]), promise("c", high, high, vec!["x"])];
    assert_eq!(select_proposal(&msgs, 5), vec!["x".to_string()]);
    // Nobody voted: nothing to propose.
    let msgs = [promise("a", high, low, vec![]), promise("b", high, high, vec![])];
    assert!(select_proposal(&msgs, 5).is_empty());
    // No value in the highest round: the first value voted at all.
    let msgs = [promise("a", high, high, vec![]), promise("b", high, low, vec!["y"])];
    assert_eq!(select_proposal(&msgs, 5), vec!["y".to_string()]);
}

#[test]
fn selection_among_several_values_of_the_highest_round() {
    let low = Rank { round: 1, node_index: 0 };
    let high = Rank { round: 2, node_index: 0 };
    let msgs = [promise("a", high, low, vec!["z"]), promise("b", high, high, vec!["x"]), promise("c", high, high, vec!["y"])];
    // Under four members one vote is more than a quarter: a value of the
    // highest round is taken.
    assert_eq!(select_proposal(&msgs, 3), vec!["x".to_string()]);
    // Otherwise the first value voted at all.
    assert_eq!(select_proposal(&msgs, 8), vec!["z".to_string()]);
}

#[test]
fn coordinator_proposes_the_chosen_value_after_a_quorum() {
    let mut p = Paxos::new(3, "a".to_string(), 0);
    p.start_phase_1a(2);
    let sent = p.drain_messages();
    let rank = match &sent[0].1 {
        Message::Request(RequestKind::Consensus(Consensus::Phase1aMessage(m))) => m.rank,
        _ => panic!("expected a Phase 1a message"),
    };
    let low = Rank { round: 1, node_index: 0 };
    p.handle_phase_1b(promise("b", rank, low, vec!["x"]));
    // One promise out of three is no quorum.
    assert!(p.drain_messages().is_empty());
    p.handle_phase_1b(promise("c", rank, low, vec!["x"]));
    let sent = p.drain_messages();
    assert_eq!(sent.len(), 1);
    assert!(sent[0].0.is_none());
    match &sent[0].1 {
        Message::Request(RequestKind::Consensus(Consensus::Phase2aMessage(m))) => {
            assert_eq!(m.vval, vec!["x".to_string()]);
            assert_eq!(m.rnd, rank);
            assert_eq!(m.sender, "a");
        }
        _ => panic!("expected a Phase 2a message"),
    }
    // A value once picked is not picked again.
    p.handle_phase_1b(promise("d", rank, low, vec!["y"]));
    assert!(p.drain_messages().is_empty());
}

#[test]
fn fast_round_needs_a_membership() {
    let f = FastPaxos::new("a".to_string(), 0, 0);
    assert!(!f.accepts(&vote("b", 0, vec![])));
    let f = FastPaxos::new("a".to_string(), 3, 0);
    assert!(f.accepts(&vote("b", 0, vec![])));
}

#[test]
fn client_queues_requests_in_order() {
    let mut c = Client::new();
    assert!(c.get_next().is_none());
    c.send("a".to_string(), RequestKind::Probe);
    c.send_no_wait("b".to_string(), RequestKind::Probe);
    c.broadcast(RequestKind::Probe);
    match c.get_next() {
        Some(RequestType::Unary(r)) => assert_eq!(r.into_parts().0, "a"),
        _ => panic!("expected a unary request"),
    }
    match c.get_next() {
        Some(RequestType::UnaryNoWait(r)) => assert_eq!(r.into_parts().0, "b"),
        _ => panic!("expected a request without wait"),
    }
    assert!(matches!(c.get_next(), Some(RequestType::Broadcast(RequestKind::Probe))));
    assert!(c.get_next().is_none());
    assert!(matches!(RequestType::new_unary(Request::new("z".to_string(), RequestKind::Probe)), RequestType::Unary(_)));
}
