use clique::membership::ring::Ring;

#[test]
fn insert() {
    let mut ring = Ring::new(0);
    assert!(ring.insert("test".to_string()));
    assert!(ring.contains("test".to_string()));
}

#[test]
fn higher_of_lower_is_the_value() {
    let mut ring = Ring::new(3);
    for i in 0..8 {
        ring.insert(format!("n{}", i));
    }
    let first = ring.first().unwrap().clone();
    for i in 0..8 {
        let x = format!("n{}", i);
        if x == first {
            assert!(ring.lower(x.clone()).is_none());
            continue;
        }
        let below = ring.lower(x.clone()).unwrap().clone();
        assert_eq!(ring.higher(below), Some(&x));
    }
}
