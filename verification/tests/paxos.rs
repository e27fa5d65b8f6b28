use clique::consensus::paxos::{hash_str, Paxos};
use clique::transport::proto::{
    Consensus, Phase1aMessage, Phase1bMessage, Phase2aMessage, Phase2bMessage, Rank, RequestKind,
};
use clique::transport::Message;
use clique::Endpoint;

const K: usize = 5;
const CONFIG_ID: i64 = 0;

fn next_consensus(pax: &mut Paxos) -> Consensus {
    let mut messages = pax.drain_messages();
    if messages.is_empty() {
        panic!("No messages present in the queue!")
    }
    match messages.remove(0) {
        (_, Message::Request(RequestKind::Consensus(c))) => c,
        _ => panic!("Incorrect type of request!"),
    }
}

fn phase1a(pax: &mut Paxos) -> Phase1aMessage {
    match next_consensus(pax) {
        Consensus::Phase1aMessage(m) => m,
        _ => panic!("Incorrect type of request!"),
    }
}

fn phase1b(pax: &mut Paxos) -> Phase1bMessage {
    match next_consensus(pax) {
        Consensus::Phase1bMessage(m) => m,
        _ => panic!("Incorrect type of request!"),
    }
}

fn phase2b(pax: &mut Paxos) -> Phase2bMessage {
    match next_consensus(pax) {
        Consensus::Phase2bMessage(m) => m,
        _ => panic!("Incorrect type of request!"),
    }
}

#[test]
fn test_paxos_start_phase1a() {
    let mut pax = Paxos::new(K, "san-francisco".to_string(), CONFIG_ID);

    pax.start_phase_1a(1);
    let msg = phase1a(&mut pax);

    assert_eq!(msg.config_id, CONFIG_ID);
    assert_eq!(
        msg.rank,
        Rank {
            round: 1,
            node_index: hash_str("san-francisco")
        }
    );
}

#[test]
#[should_panic]
fn test_paxos_start_phase1a_fail() {
    let mut pax = Paxos::new(K, "san-francisco".to_string(), CONFIG_ID);

    pax.start_phase_1a(0);
    let msg = phase1a(&mut pax);

    pax.handle_phase_1a(msg);
    let _msg = phase1a(&mut pax);

    // At this point, anyone starting a new paxos round needs to have the round at >= 1
    pax.start_phase_1a(0);
    let _msg = phase1a(&mut pax);
}

#[test]
fn test_paxos_handle_phase1a_safe_path() {
    let req = Phase1aMessage {
        sender: "chicago".into(),
        config_id: 1,
        rank: Rank {
            round: 3,
            node_index: hash_str("chicago"),
        },
    };

    let mut pax = Paxos::new(K, "san-francisco".to_string(), 1);

    pax.handle_phase_1a(req);
    let msg = phase1b(&mut pax);

    assert_eq!(msg.config_id, 1);
    assert_eq!(
        msg.rnd,
        Rank {
            round: 0,
            node_index: 0
        }
    );
    assert_eq!(
        msg.vrnd,
        Rank {
            round: 0,
            node_index: 0
        }
    );
}

#[test]
#[should_panic]
fn test_paxos_handle_phase1a_wrong_config() {
    let rank = Rank {
        round: 3,
        node_index: hash_str("chicago"),
    };

    let req = Phase1aMessage {
        sender: "chicago".into(),
        config_id: 1,
        rank,
    };

    let mut pax = Paxos::new(K, "san-francisco".to_string(), 2);

    pax.handle_phase_1a(req);
    // test will panic because no message was sent
    let _msg = phase1b(&mut pax);
}

#[test]
#[should_panic]
fn test_paxos_handle_phase1a_wrong_rank() {
    let rank = Rank {
        round: 0,
        node_index: hash_str("chicago"),
    };

    let req = Phase1aMessage {
        sender: "chicago".into(),
        config_id: 2,
        rank,
    };

    let mut pax = Paxos::new(K, "san-francisco".to_string(), 2);

    pax.handle_phase_1a(req);
    let _msg = phase1b(&mut pax);

    let rank = Rank {
        round: 0,
        node_index: hash_str("chicago"),
    };

    let req = Phase1aMessage {
        sender: "chicago".into(),
        config_id: 2,
        rank,
    };

    pax.handle_phase_1a(req);
    // test will panic because no message was sent
    let _msg = phase1b(&mut pax);
}

#[test]
fn test_paxos_handle_phase2a() {
    let proposal: Vec<Endpoint> = vec![
        "chicago".to_string(),
        "new-york".to_string(),
        "boston".to_string(),
        "seattle".to_string(),
    ];

    let rank = Rank {
        round: 1,
        node_index: hash_str("san-francisco"),
    };

    let req = Phase2aMessage {
        sender: "san-francisco".to_string(),
        config_id: 1,
        rnd: rank,
        vval: proposal.clone(),
    };

    let mut pax = Paxos::new(K, "san-francisco".to_string(), 1);

    pax.handle_phase_2a(req);

    let msg = phase2b(&mut pax);

    assert_eq!(msg.config_id, 1);
    assert_eq!(msg.endpoints, proposal);
}

fn vote(sender: &str, config_id: i64, rnd: Rank, endpoints: Vec<&str>) -> Phase2bMessage {
    Phase2bMessage {
        sender: sender.to_string(),
        config_id,
        rnd,
        endpoints: endpoints.into_iter().map(|e| e.to_string()).collect(),
    }
}

#[test]
fn coordinator_decides_once_a_majority_voted() {
    let mut pax = Paxos::new(3, "a".to_string(), 7);
    let r = Rank { round: 2, node_index: 1 };
    assert_eq!(pax.handle_phase_2b(vote("b", 7, r, vec!["x"])), None);
    // The same sender again is one vote.
    assert_eq!(pax.handle_phase_2b(vote("b", 7, r, vec!["x"])), None);
    // Another configuration's vote is not counted.
    assert_eq!(pax.handle_phase_2b(vote("c", 8, r, vec!["x"])), None);
    assert!(!pax.is_decided());
    assert_eq!(pax.handle_phase_2b(vote("c", 7, r, vec!["x"])), Some(vec!["x".to_string()]));
    assert!(pax.is_decided());
    // Decided once.
    assert_eq!(pax.handle_phase_2b(vote("d", 7, r, vec!["x"])), None);
}
