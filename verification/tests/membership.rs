use clique::cluster::{start_membership, K};
use clique::membership::Membership;
use clique::transport::proto::{
    Alert, BatchedAlertMessage, EdgeStatus, JoinMessage, JoinResponse, JoinStatus, Metadata, NodeStatus,
    PreJoinMessage, ResponseKind,
};
use clique::transport::Message;
use clique::{ErrorKind, NodeId};

const HOST: &str = "127.0.0.1:1";
const JOINER: &str = "127.0.0.2:2";

fn started() -> Membership {
    start_membership(NodeId::from_u128(1), HOST.to_string())
}

fn pre_join(m: &mut Membership, sender: &str, id: u128) -> JoinResponse {
    let resp = m
        .handle_pre_join(PreJoinMessage {
            sender: sender.to_string(),
            node_id: NodeId::from_u128(id),
            ring_number: 0,
            config_id: -1,
        })
        .unwrap();
    match resp.into_inner() {
        ResponseKind::Join(j) => j,
        _ => panic!("expected a join response"),
    }
}

fn up_alert(config_id: i64) -> Alert {
    Alert {
        src: HOST.to_string(),
        dst: JOINER.to_string(),
        edge_status: EdgeStatus::Up,
        config_id,
        node_id: Some(NodeId::from_u128(2)),
        ring_number: (0..K as i32).collect(),
        metadata: Some(Metadata::empty()),
    }
}

#[test]
fn started_alone() {
    let m = started();
    assert_eq!(m.view(), vec![HOST.to_string()]);
    let changes = m.get_inititial_view_changes();
    assert_eq!(changes.len(), 1);
    assert_eq!(changes[0].endpoint, HOST);
    assert_eq!(changes[0].status, EdgeStatus::Up);
}

#[test]
fn seed_admits_a_new_node() {
    let mut m = started();
    let res = pre_join(&mut m, JOINER, 2);
    assert_eq!(res.status, JoinStatus::SafeToJoin);
    assert_eq!(res.sender, JOINER);
    // Alone on every ring, the host observes the joiner on each of them.
    assert_eq!(res.endpoints.len(), K);
    assert!(res.endpoints.iter().all(|e| e == HOST));
    assert!(res.identifiers.is_empty());
}

#[test]
fn seed_refuses_a_taken_address_or_identifier() {
    let mut m = started();
    let res = pre_join(&mut m, HOST, 9);
    assert_eq!(res.status, JoinStatus::HostnameAlreadyInRing);
    assert_eq!(res.endpoints.len(), K);
    let res = pre_join(&mut m, JOINER, 1);
    assert_eq!(res.status, JoinStatus::NodeIdAlreadyInRing);
    assert!(res.endpoints.is_empty());
}

#[test]
fn join_in_another_configuration_is_answered_at_once() {
    let mut m = started();
    let config_id = pre_join(&mut m, JOINER, 2).config_id;
    let res = m
        .handle_join(
            JoinMessage {
                sender: JOINER.to_string(),
                node_id: NodeId::from_u128(2),
                ring_number: vec![0],
                config_id: config_id.wrapping_add(1),
            },
            0,
        )
        .unwrap();
    assert_eq!(res.status, JoinStatus::ConfigChanged);
    assert_eq!(res.config_id, config_id);
    assert_eq!(res.sender, HOST);
}

#[test]
fn join_waits_and_alerts_are_batched() {
    let mut m = started();
    let config_id = pre_join(&mut m, JOINER, 2).config_id;
    let res = m.handle_join(
        JoinMessage {
            sender: JOINER.to_string(),
            node_id: NodeId::from_u128(2),
            ring_number: vec![0, 3],
            config_id,
        },
        1000,
    );
    assert!(res.is_none());
    assert!(m.get_batch_alerts(1000 + 10_000).is_none());
    let batch = m.get_batch_alerts(1000 + 10_001).unwrap();
    assert_eq!(batch.sender, HOST);
    assert_eq!(batch.alerts.len(), 1);
    assert_eq!(batch.alerts[0].dst, JOINER);
    assert_eq!(batch.alerts[0].edge_status, EdgeStatus::Up);
    assert_eq!(batch.alerts[0].ring_number, vec![0, 3]);
    assert_eq!(batch.alerts[0].config_id, config_id);
    assert!(m.get_batch_alerts(1000 + 20_002).is_none());
}

#[test]
fn probe_is_answered_up() {
    let m = started();
    match m.handle_probe_message().into_inner() {
        ResponseKind::Probe(s) => assert_eq!(s, NodeStatus::Up),
        _ => panic!("expected a probe response"),
    }
}

#[test]
fn alerts_of_another_configuration_are_dropped() {
    let mut m = started();
    let config_id = pre_join(&mut m, JOINER, 2).config_id;
    let mut alert = up_alert(config_id.wrapping_add(1));
    assert!(!m.filter_alert_messages(&alert, config_id));
    alert.config_id = config_id;
    assert!(m.filter_alert_messages(&alert, config_id));
    // A down edge is only taken for a member.
    alert.edge_status = EdgeStatus::Down;
    assert!(!m.filter_alert_messages(&alert, config_id));
}

#[test]
fn joiner_is_proposed_decided_and_answered() {
    let mut m = started();
    let config_id = pre_join(&mut m, JOINER, 2).config_id;
    assert!(m
        .handle_join(
            JoinMessage {
                sender: JOINER.to_string(),
                node_id: NodeId::from_u128(2),
                ring_number: (0..K as i32).collect(),
                config_id,
            },
            0,
        )
        .is_none());

    let batch = BatchedAlertMessage { sender: HOST.to_string(), alerts: vec![up_alert(config_id)] };
    let changes = m.handle_batched_alert_message(batch).unwrap();
    assert_eq!(changes.len(), 1);
    assert_eq!(changes[0].endpoint, JOINER);
    assert_eq!(changes[0].status, EdgeStatus::Up);

    // The fast-round vote goes to every member: the host alone.
    let out = m.take_consensus_messages();
    assert_eq!(out.len(), 1);
    assert_eq!(out[0].0, HOST);
    assert!(matches!(out[0].1, Message::Request(_)));

    let (answer, joiners) = m.on_decide(vec![HOST.to_string(), JOINER.to_string()]).unwrap();
    assert_eq!(joiners, vec![JOINER.to_string()]);
    assert_eq!(answer.status, JoinStatus::SafeToJoin);
    assert_eq!(answer.sender, HOST);
    let mut endpoints = answer.endpoints.clone();
    endpoints.sort();
    assert_eq!(endpoints, vec![HOST.to_string(), JOINER.to_string()]);
    assert_eq!(answer.identifiers, vec![NodeId::from_u128(1), NodeId::from_u128(2)]);
    assert_ne!(answer.config_id, config_id);

    let mut members = m.view();
    members.sort();
    assert_eq!(members, vec![HOST.to_string(), JOINER.to_string()]);

    // The joiner is now a member: asking again is refused.
    let res = pre_join(&mut m, JOINER, 3);
    assert_eq!(res.status, JoinStatus::HostnameAlreadyInRing);
}

#[test]
fn decision_removes_a_member() {
    let mut m = started();
    let config_id = pre_join(&mut m, JOINER, 2).config_id;
    assert!(m.filter_alert_messages(&up_alert(config_id), config_id));
    m.on_decide(vec![HOST.to_string(), JOINER.to_string()]).unwrap();
    assert_eq!(m.view().len(), 2);
    // A member that the decided membership leaves out is removed.
    let (_, joiners) = m.on_decide(vec![HOST.to_string()]).unwrap();
    assert!(joiners.is_empty());
    assert_eq!(m.view(), vec![HOST.to_string()]);
}

#[test]
fn decision_with_a_seen_identifier_fails() {
    let mut m = started();
    let config_id = pre_join(&mut m, JOINER, 2).config_id;
    let mut alert = up_alert(config_id);
    alert.node_id = Some(NodeId::from_u128(1));
    assert!(m.filter_alert_messages(&alert, config_id));
    let err = m.on_decide(vec![JOINER.to_string()]).unwrap_err();
    assert_eq!(*err.kind(), ErrorKind::UuidAlreadySeen);
    assert_eq!(m.view(), vec![HOST.to_string()]);
}

#[test]
fn edge_failure_is_reported_for_the_current_configuration() {
    let mut m = started();
    let config_id = pre_join(&mut m, JOINER, 2).config_id;
    m.edge_failure_notification(JOINER.to_string(), config_id.wrapping_add(1), 5);
    assert!(m.get_batch_alerts(100_000).is_none());
    m.edge_failure_notification(JOINER.to_string(), config_id, 5);
    let batch = m.get_batch_alerts(100_000).unwrap();
    assert_eq!(batch.alerts.len(), 1);
    assert_eq!(batch.alerts[0].edge_status, EdgeStatus::Down);
    assert_eq!(batch.alerts[0].dst, JOINER);
    // Alone, the host has no subjects: no ring is listed.
    assert!(batch.alerts[0].ring_number.is_empty());
}

#[test]
fn status_changes_follow_membership() {
    let m = started();
    let changes = m.create_node_status_change_list(&vec![HOST.to_string(), JOINER.to_string()]);
    assert_eq!(changes[0].status, EdgeStatus::Down);
    assert_eq!(changes[1].status, EdgeStatus::Up);
}

#[test]
fn subjects_and_queries() {
    let mut m = started();
    let (subjects, id) = m.failure_detector_subjects().unwrap();
    assert!(subjects.is_empty());
    assert_eq!(id, m.current_config_id());
    assert!(m.is_member(&HOST.to_string()));
    assert!(!m.is_member(&JOINER.to_string()));
    assert_eq!(m.host(), HOST);
    let config_id = pre_join(&mut m, JOINER, 2).config_id;
    assert_eq!(config_id, id);
    assert!(!m.has_joiner_data(&JOINER.to_string()));
    assert!(m.filter_alert_messages(&up_alert(config_id), config_id));
    assert!(m.has_joiner_data(&JOINER.to_string()));
    m.on_decide(vec![JOINER.to_string(), HOST.to_string()]).unwrap();
    let (subjects, id2) = m.failure_detector_subjects().unwrap();
    assert_eq!(subjects, vec![JOINER.to_string(); K]);
    assert_ne!(id2, id);
}

#[test]
fn checked_batch_refuses_what_the_cut_detector_cannot_take() {
    let mut m = started();
    let config_id = pre_join(&mut m, JOINER, 2).config_id;
    let mut beyond = up_alert(config_id);
    beyond.ring_number = vec![K as i32 + 1];
    let batch = BatchedAlertMessage { sender: HOST.to_string(), alerts: vec![beyond] };
    assert!(m.try_handle_batched_alert_message(batch).is_none());
    let mut anonymous = up_alert(config_id);
    anonymous.node_id = None;
    let batch = BatchedAlertMessage { sender: HOST.to_string(), alerts: vec![anonymous] };
    assert!(m.try_handle_batched_alert_message(batch).is_none());
    // Nothing was taken: the joiner is still unknown to a decision.
    assert!(!m.has_joiner_data(&JOINER.to_string()));
    assert!(m.try_on_decide(vec![JOINER.to_string()]).is_none());
}

#[test]
fn checked_batch_skips_filtered_alerts_and_takes_good_ones() {
    let mut m = started();
    let config_id = pre_join(&mut m, JOINER, 2).config_id;
    // An alert of another configuration is dropped before it is looked at.
    let mut stale = up_alert(config_id.wrapping_add(1));
    stale.ring_number = vec![K as i32 + 5];
    stale.node_id = None;
    let batch = BatchedAlertMessage { sender: HOST.to_string(), alerts: vec![stale] };
    assert!(matches!(m.try_handle_batched_alert_message(batch), Some(None)));
    let batch = BatchedAlertMessage { sender: HOST.to_string(), alerts: vec![up_alert(config_id)] };
    let changes = m.try_handle_batched_alert_message(batch).unwrap().unwrap();
    assert_eq!(changes.len(), 1);
    assert_eq!(changes[0].endpoint, JOINER);
    assert_eq!(changes[0].status, EdgeStatus::Up);
}

#[test]
fn checked_decision_refuses_unknown_nodes_and_the_host_leaving() {
    let mut m = started();
    assert!(m.try_on_decide(vec![JOINER.to_string()]).is_none());
    // A decided membership without this member would have it leave.
    assert!(m.try_on_decide(vec![]).is_none());
    assert_eq!(m.view(), vec![HOST.to_string()]);
    let config_id = pre_join(&mut m, JOINER, 2).config_id;
    assert!(m.filter_alert_messages(&up_alert(config_id), config_id));
    assert!(m.try_on_decide(vec![JOINER.to_string()]).is_none());
    assert!(m.has_joiner_data(&JOINER.to_string()));
    let (answer, joiners) = m.try_on_decide(vec![HOST.to_string(), JOINER.to_string()]).unwrap().unwrap();
    assert!(joiners.is_empty());
    assert_eq!(answer.status, JoinStatus::SafeToJoin);
    assert_eq!(m.view().len(), 2);
}
