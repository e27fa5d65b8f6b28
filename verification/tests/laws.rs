use clique::membership::view::View;
use clique::NodeId;

const K: i32 = 10;

#[test]
fn observers_and_subjects_are_dual() {
    let mut view = View::new(K);
    let nodes: Vec<String> = (0..6).map(|i| format!("10.0.0.{}:7000", i)).collect();
    for (i, n) in nodes.iter().enumerate() {
        view.ring_add(n.clone(), NodeId::from_u128(i as u128 + 1)).unwrap();
    }
    for n in &nodes {
        let observers = view.get_observers(n).unwrap();
        assert_eq!(observers.len(), K as usize);
        for (ring, o) in observers.iter().enumerate() {
            let subjects = view.get_subjects(o).unwrap();
            assert_eq!(&subjects[ring], n);
        }
    }
}

#[test]
fn same_membership_same_configuration() {
    let nodes: Vec<String> = (0..5).map(|i| format!("n{}", i)).collect();
    let mut forward = View::new(K);
    for (i, n) in nodes.iter().enumerate() {
        forward.ring_add(n.clone(), NodeId::from_u128(i as u128)).unwrap();
    }
    let mut backward = View::new(K);
    for (i, n) in nodes.iter().enumerate().rev() {
        backward.ring_add(n.clone(), NodeId::from_u128(i as u128)).unwrap();
    }
    assert_eq!(forward.get_current_config_id(), backward.get_current_config_id());
    let c = forward.get_config().clone();
    assert_eq!(c.endpoints(), &nodes);
}
