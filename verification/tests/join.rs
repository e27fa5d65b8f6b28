use clique::join::{config_to_join, join_requests, observer_response, pre_join_request, seed_response, NO_CONFIG};
use clique::transport::proto::{JoinResponse, JoinStatus, RequestKind, ResponseKind};
use clique::transport::Message;
use clique::{ErrorKind, NodeId};

fn answer(status: JoinStatus, config_id: i64, endpoints: Vec<&str>) -> JoinResponse {
    JoinResponse {
        sender: "seed".to_string(),
        status,
        config_id,
        endpoints: endpoints.into_iter().map(|e| e.to_string()).collect(),
        identifiers: vec![],
        cluster_metadata: vec![],
    }
}

#[test]
fn pre_join_request_names_the_joiner() {
    match pre_join_request(&"me".to_string(), NodeId::from_u128(7)) {
        RequestKind::PreJoin(m) => {
            assert_eq!(m.sender, "me");
            assert_eq!(m.node_id, NodeId::from_u128(7));
            assert_eq!(m.config_id, NO_CONFIG);
        }
        _ => panic!("expected a pre-join request"),
    }
}

#[test]
fn seed_answer_lets_the_joiner_go_on() {
    let res = seed_response(Message::Response(ResponseKind::Join(answer(JoinStatus::SafeToJoin, 4, vec!["a"]))));
    assert_eq!(res.unwrap().config_id, 4);
    let res = seed_response(Message::Response(ResponseKind::Join(answer(
        JoinStatus::HostnameAlreadyInRing,
        4,
        vec![],
    ))));
    assert!(res.is_ok());
}

#[test]
fn seed_refusal_is_a_phase_one_error() {
    for status in [JoinStatus::NodeIdAlreadyInRing, JoinStatus::ConfigChanged, JoinStatus::MembershipRejected] {
        let err = seed_response(Message::Response(ResponseKind::Join(answer(status, 4, vec![])))).unwrap_err();
        assert_eq!(*err.kind(), ErrorKind::JoinPhase1);
    }
    let err = seed_response(Message::Response(ResponseKind::Response)).unwrap_err();
    assert_eq!(*err.kind(), ErrorKind::JoinPhase1);
}

#[test]
fn config_to_join_is_none_for_a_member() {
    assert_eq!(config_to_join(&answer(JoinStatus::HostnameAlreadyInRing, 4, vec![])), NO_CONFIG);
    assert_eq!(config_to_join(&answer(JoinStatus::SafeToJoin, 4, vec![])), 4);
}

#[test]
fn one_request_per_observer_with_its_rings() {
    let res = answer(JoinStatus::SafeToJoin, 9, vec!["a", "b", "a", "c", "b"]);
    let reqs = join_requests(&"me".to_string(), NodeId::from_u128(3), &res);
    assert_eq!(reqs.len(), 3);
    let expect = [("a", vec![0, 2]), ("b", vec![1, 4]), ("c", vec![3])];
    for ((to, req), (obs, rings)) in reqs.iter().zip(expect.iter()) {
        assert_eq!(to, obs);
        match req {
            RequestKind::Join(m) => {
                assert_eq!(&m.ring_number, rings);
                assert_eq!(m.config_id, 9);
                assert_eq!(m.sender, "me");
                assert_eq!(m.node_id, NodeId::from_u128(3));
            }
            _ => panic!("expected a join request"),
        }
    }
}

#[test]
fn observer_answer_from_another_configuration_is_skipped() {
    let skip = observer_response(Message::Response(ResponseKind::Join(answer(JoinStatus::SafeToJoin, 8, vec![]))), 9);
    assert!(skip.is_none());
    let take = observer_response(Message::Response(ResponseKind::Join(answer(JoinStatus::SafeToJoin, 9, vec![]))), 9);
    assert_eq!(take.unwrap().config_id, 9);
    let changed =
        observer_response(Message::Response(ResponseKind::Join(answer(JoinStatus::ConfigChanged, 8, vec![]))), 9);
    assert_eq!(changed.unwrap().status, JoinStatus::ConfigChanged);
    assert!(observer_response(Message::Response(ResponseKind::Consensus), 9).is_none());
}
