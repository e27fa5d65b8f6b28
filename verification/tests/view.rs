use clique::membership::view::View;
use clique::{ErrorKind, NodeId};
use std::collections::HashSet;

const K: i32 = 10;

#[test]
fn ring_add_one() {
    let mut view = View::new(K);
    view.ring_add("A".into(), NodeId::new()).unwrap();
    assert_eq!(view.get_ring(0).unwrap().len(), 1);

    for i in 0..K {
        assert_eq!(view.get_ring(i).unwrap().len(), 1);
    }
}

#[test]
fn ring_add_multiple() {
    let mut view = View::new(K);
    let num = 10;

    for i in 0..10 {
        view.ring_add(i.to_string(), NodeId::new()).unwrap();
    }

    for i in 0..K {
        assert_eq!(view.get_ring(i).unwrap().len(), num);
    }

    for i in 0..10 {
        view.ring_add(i.to_string(), NodeId::new()).unwrap_err();
    }
}

#[test]
fn ring_delete() {
    let mut view = View::new(K);
    let node = "A".to_string();
    view.ring_add(node.clone(), NodeId::new()).unwrap();
    assert_eq!(view.get_ring(0).unwrap().len(), 1);

    view.ring_delete(&node).unwrap();
    assert_eq!(view.get_ring(0).unwrap().len(), 0);
}

#[test]
fn ring_re_addition() {
    let mut view = View::new(K);
    view.ring_add("A".into(), NodeId::new()).unwrap();
    assert_eq!(view.get_ring(0).unwrap().len(), 1);

    let err = view.ring_add("A".into(), NodeId::new()).unwrap_err();
    assert_eq!(err.kind(), &ErrorKind::NodeAlreadyInRing);
}

#[test]
fn ring_delete_invalid() {
    let mut view = View::new(K);

    let err = view.ring_delete(&"A".to_string()).unwrap_err();
    assert_eq!(err.kind(), &ErrorKind::NodeNotInRing);
}

#[test]
fn monitor_edge_one_node() {
    let mut view = View::new(K);

    view.ring_add("A".into(), NodeId::new()).unwrap();

    let obs = view.get_observers(&"A".to_string()).unwrap();
    let sub = view.get_subjects(&"A".to_string()).unwrap();
    assert!(obs.is_empty());
    assert!(sub.is_empty());
}

#[test]
fn monitor_edge_two_nodes() {
    let mut view = View::new(K);

    view.ring_add("A".into(), NodeId::new()).unwrap();
    view.ring_add("B".into(), NodeId::new()).unwrap();

    let obs = view.get_observers(&"A".to_string()).unwrap();
    let sub = view.get_subjects(&"A".to_string()).unwrap();
    assert_eq!(obs.len(), K as usize);
    assert_eq!(sub.len(), K as usize);
}

#[test]
fn monitor_edge_three_nodes() {
    let mut view = View::new(K);

    view.ring_add("A".into(), NodeId::new()).unwrap();
    view.ring_add("B".into(), NodeId::new()).unwrap();
    view.ring_add("C".into(), NodeId::new()).unwrap();

    for node in vec!["A", "B", "C"] {
        let mut obs = view.get_observers(&node.to_string()).unwrap();
        assert_eq!(obs.len(), K as usize);
        obs.sort();
        obs.dedup();
        assert_eq!(obs.len(), 2);

        let mut sub = view.get_subjects(&node.to_string()).unwrap();
        assert_eq!(sub.len(), K as usize);
        sub.sort();
        sub.dedup();
        assert_eq!(sub.len(), 2);
    }

    view.ring_delete(&"B".into()).unwrap();

    let mut obs = view.get_observers(&"A".to_string()).unwrap();
    assert_eq!(obs.len(), K as usize);
    obs.sort();
    obs.dedup();
    assert_eq!(obs.len(), 1);

    let mut sub = view.get_subjects(&"A".to_string()).unwrap();
    assert_eq!(sub.len(), K as usize);
    sub.sort();
    sub.dedup();
    assert_eq!(sub.len(), 1);
}

#[test]
fn monitor_edge_multiple_nodes() {
    let num = 1000;

    let nodes = (0..num)
        .into_iter()
        .map(|i| i.to_string())
        .collect::<Vec<_>>();

    let mut view = View::new(K);
    for node in &nodes {
        view.ring_add(node.clone(), NodeId::new()).unwrap();
    }

    for node in &nodes {
        let obs = view.get_observers(&node.to_string()).unwrap();
        assert_eq!(obs.len(), K as usize);
        let sub = view.get_subjects(&node.to_string()).unwrap();
        assert_eq!(sub.len(), K as usize);
    }
}

#[test]
fn monitor_edge_bootstrap() {
    let mut view = View::new(K);

    view.ring_add("A".into(), NodeId::new()).unwrap();

    let exp_obs = view.get_expected_observers(&"".to_string());
    assert_eq!(exp_obs.len(), K as usize);
    let mut exp_obs_dedup = exp_obs.clone();
    exp_obs_dedup.sort();
    exp_obs_dedup.dedup();
    assert_eq!(exp_obs_dedup.len(), 1);
    assert_eq!(exp_obs[0], "A".to_string());
}

#[test]
fn node_unique_no_deletions() {
    let mut view = View::new(K);

    let e1 = "A".to_string();
    let n1 = NodeId::new();

    view.ring_add(e1.clone(), n1.clone()).unwrap();

    let err = view.ring_add(e1.clone(), n1.clone()).unwrap_err();
    assert_eq!(err.kind(), &ErrorKind::UuidAlreadySeen);

    let err = view.ring_add(e1.clone(), NodeId::new()).unwrap_err();
    assert_eq!(err.kind(), &ErrorKind::NodeAlreadyInRing);

    let err = view.ring_add("B".to_string(), n1.clone()).unwrap_err();
    assert_eq!(err.kind(), &ErrorKind::UuidAlreadySeen);

    view.ring_add("C".to_string(), NodeId::new()).unwrap();
}

#[test]
fn node_unique_with_deletions() {
    let mut view = View::new(K);

    let e1 = "A".to_string();
    let n1 = NodeId::new();

    view.ring_add(e1.clone(), n1.clone()).unwrap();

    let e2 = "B".to_string();
    let n2 = NodeId::new();

    view.ring_add(e2.clone(), n2.clone()).unwrap();

    view.ring_delete(&e2).unwrap();
    assert_eq!(view.get_ring(0).unwrap().len(), 1);

    let err = view.ring_add(e2.clone(), n2.clone()).unwrap_err();
    assert_eq!(err.kind(), &ErrorKind::UuidAlreadySeen);

    view.ring_add(e2.clone(), NodeId::new()).unwrap();
    assert_eq!(view.get_ring(0).unwrap().len(), 2);
}

#[test]
fn node_config_change() {
    let mut view = View::new(K);

    let num = 1000;
    let mut set = HashSet::new();

    for i in 0..num {
        let n = i.to_string();
        view.ring_add(n, NodeId::new()).unwrap();
        let id = view.get_config().config_id();
        set.insert(id);
    }

    assert_eq!(set.len(), num);
}

#[test]
fn node_config_change_accross_views() {
    let mut view1 = View::new(K);
    let mut view2 = View::new(K);

    let num = 1000;
    let nodes = (0..num)
        .into_iter()
        .map(|i| (i.to_string(), NodeId::new()))
        .collect::<Vec<_>>();

    let mut set1 = Vec::new();
    for (e, i) in &nodes {
        view1.ring_add(e.clone(), i.clone()).unwrap();
        let id = view1.get_config().config_id();
        set1.push(id);
    }

    let mut set2 = Vec::new();
    for (e, i) in nodes.iter().rev() {
        view2.ring_add(e.clone(), i.clone()).unwrap();
        let id = view2.get_config().config_id();
        set2.push(id);
    }

    for (id1, id2) in set1.iter().zip(&set2).take(set1.len() - 1) {
        assert_ne!(id1, id2);
    }

    assert_eq!(set1.pop().unwrap(), set2.pop().unwrap());
}

#[test]
fn every_ring_holds_the_same_members() {
    let mut view = View::new(K);
    for i in 0..5 {
        view.ring_add(format!("10.0.0.{}:1", i), NodeId::new()).unwrap();
    }
    view.ring_delete(&"10.0.0.2:1".to_string()).unwrap();
    let first: HashSet<String> = view.get_ring(0).unwrap().keys().into_iter().collect();
    assert_eq!(first.len(), 4);
    assert!(!first.contains("10.0.0.2:1"));
    for k in 1..K {
        let members: HashSet<String> = view.get_ring(k).unwrap().keys().into_iter().collect();
        assert_eq!(members, first);
    }
}

#[test]
fn observers_and_subjects_are_other_members() {
    let mut view = View::new(K);
    for i in 0..6 {
        view.ring_add(format!("10.0.1.{}:1", i), NodeId::new()).unwrap();
    }
    let node = "10.0.1.3:1".to_string();
    let members: HashSet<String> = view.get_ring(0).unwrap().keys().into_iter().collect();
    let observers = view.get_observers(&node).unwrap();
    let subjects = view.get_subjects(&node).unwrap();
    assert_eq!(observers.len(), K as usize);
    assert_eq!(subjects.len(), K as usize);
    for o in observers.iter().chain(subjects.iter()) {
        assert!(members.contains(o));
        assert_ne!(*o, node);
    }
    // Each subject is observed by the node on that ring.
    for (i, s) in subjects.iter().enumerate() {
        assert_eq!(view.get_observers(s).unwrap()[i], node);
    }
}
