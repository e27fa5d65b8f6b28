use clique::builder::Builder;
use clique::common::SchedulerEvents;
use clique::consensus::paxos::hash_str;
use clique::membership::ring::SeededKey;
use clique::metadata_manager::MetadataManager;
use clique::transport::proto::{EdgeStatus, JoinStatus, Metadata};
use clique::transport::{grpc, wire};
use clique::{Error, ErrorKind, NodeId};
use std::hash::Hasher;
use twox_hash::{XxHash32, XxHash64};

#[test]
fn builder_collects_transport_and_target() {
    let b: Builder<u8> = Builder::new();
    assert!(b.get_transport().is_none());
    assert!(b.get_target().is_none());
    let b = b.transport(7).target("127.0.0.1:9".to_string());
    assert_eq!(*b.get_transport(), Some(7));
    assert_eq!(b.get_target().unwrap(), "127.0.0.1:9");
}

#[test]
fn metadata_manager_keeps_first_metadata() {
    let mut m = MetadataManager::new();
    assert!(m.get("a").is_none());
    let mut meta = Metadata::empty();
    meta.metadata.push(("role".to_string(), vec![1]));
    m.add_metadata(vec![("a".to_string(), meta)]);
    assert_eq!(m.get("a").unwrap().metadata, vec![("role".to_string(), vec![1])]);
    m.add_metadata(vec![("a".to_string(), Metadata::empty()), ("b".to_string(), Metadata::empty())]);
    assert_eq!(m.get("a").unwrap().metadata.len(), 1);
    assert!(m.get("b").unwrap().metadata.is_empty());
    m.remove_node("a");
    assert!(m.get("a").is_none());
    assert!(m.get("b").is_some());
}

#[test]
fn wire_codes_map_to_statuses() {
    assert_eq!(wire::join_status_from_code(0), JoinStatus::HostnameAlreadyInRing);
    assert_eq!(wire::join_status_from_code(1), JoinStatus::NodeIdAlreadyInRing);
    assert_eq!(wire::join_status_from_code(2), JoinStatus::SafeToJoin);
    assert_eq!(wire::join_status_from_code(3), JoinStatus::ConfigChanged);
    assert_eq!(wire::join_status_from_code(4), JoinStatus::MembershipRejected);
    assert_eq!(wire::edge_status_from_code(0), EdgeStatus::Up);
    assert_eq!(wire::edge_status_from_code(1), EdgeStatus::Down);
    assert_eq!(wire::Error::Upstream.name(), "Upstream");
    assert_eq!(grpc::Error::Unknown.name(), "Unknown");
}

#[test]
fn error_constructors_set_their_kind() {
    assert_eq!(*Error::new_join_phase1().kind(), ErrorKind::JoinPhase1);
    assert_eq!(*Error::new_join_phase2().kind(), ErrorKind::JoinPhase2);
    assert_eq!(*Error::new_uuid_already_seen().kind(), ErrorKind::UuidAlreadySeen);
    assert_eq!(*Error::new_node_already_in_ring().kind(), ErrorKind::NodeAlreadyInRing);
    assert_eq!(*Error::new_node_not_in_ring().kind(), ErrorKind::NodeNotInRing);
    assert_eq!(*Error::vote_already_received().kind(), ErrorKind::VoteAlreadyReceived);
    assert_eq!(*Error::already_reached_consensus().kind(), ErrorKind::AlreadyReachedconsensus);
    assert_eq!(*Error::fast_round_failure().kind(), ErrorKind::FastRoundFailure);
    assert_eq!(*Error::new_unable_to_reach_decision().kind(), ErrorKind::UnableToReachDecision);
    assert_eq!(*Error::new_encoding().kind(), ErrorKind::Encoding);
    let e = Error::new_broken_pipe(Some("closed".to_string()));
    assert_eq!(*e.kind(), ErrorKind::BrokenPipe);
    assert_eq!(e.source_message().unwrap(), "closed");
    let e = Error::new_unexpected_request(None);
    assert_eq!(*e.kind(), ErrorKind::UnexpectedRequestType);
    assert!(e.source_message().is_none());
    let e: Error = ErrorKind::Start.into();
    assert_eq!(*e.kind(), ErrorKind::Start);
    assert_eq!(ErrorKind::Join.name(), "Join");
}

#[test]
fn ring_positions_are_seeded_xxhash64() {
    for seed in [0u64, 3, 9] {
        let mut h = XxHash64::with_seed(seed);
        h.write("127.0.0.1:1".as_bytes());
        assert_eq!(SeededKey::new("127.0.0.1:1".to_string(), seed).hash(), h.finish());
    }
}

#[test]
fn node_index_is_xxhash32() {
    let mut h = XxHash32::with_seed(0);
    h.write("san-francisco".as_bytes());
    assert_eq!(hash_str("san-francisco") as u64, h.finish());
}

#[test]
fn node_id_bytes_and_text() {
    let id = NodeId::from_u128(0x0123_4567_89ab_cdef_0011_2233_4455_6677);
    assert_eq!(
        id.as_bytes(),
        vec![0x01, 0x23, 0x45, 0x67, 0x89, 0xab, 0xcd, 0xef, 0x00, 0x11, 0x22, 0x33, 0x44, 0x55, 0x66, 0x77]
    );
    assert_eq!(id.to_string(), "01234567-89ab-cdef-0011-223344556677");
    assert_eq!(id.as_u128(), 0x0123_4567_89ab_cdef_0011_2233_4455_6677);
    assert_eq!(NodeId::default().as_u128(), 0);
    assert_ne!(NodeId::new(), NodeId::new());
}

#[test]
fn scheduler_events_carry_decisions() {
    let e = SchedulerEvents::Decision(vec!["a".to_string()]);
    assert!(matches!(e, SchedulerEvents::Decision(ref v) if v.len() == 1));
    assert!(matches!(SchedulerEvents::Idle, SchedulerEvents::Idle));
}

#[test]
fn fresh_identifiers_are_random_v4_uuids() {
    let id = clique::NodeId::new();
    let bytes = id.as_bytes();
    assert_eq!(bytes[6] >> 4, 4);
    assert_eq!(bytes[8] >> 6, 2);
    assert_eq!(id.to_string().chars().nth(14), Some('4'));
}
