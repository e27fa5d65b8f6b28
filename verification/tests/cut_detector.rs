use clique::membership::cut_detector::MultiNodeCutDetector;
use clique::transport::proto::{Alert, EdgeStatus};
use std::convert::TryInto;

const NUM: usize = 10;
const HIGH: usize = 8;
const LOW: usize = 2;
const CONFIG_ID: i64 = -1;

#[test]
fn cut_detection_test() {
    let mut cut_detector = MultiNodeCutDetector::new(NUM, HIGH, LOW);
    let dst = String::from("127.0.0.2:2");

    let mut ret;

    for i in 0..HIGH - 1 {
        ret = cut_detector.aggregate(Alert::new(
            format!("127.0.0.1:{}", i + 1),
            dst.clone(),
            EdgeStatus::Up,
            CONFIG_ID,
            i.try_into().unwrap(),
        ));

        assert_eq!(0, ret.len());
        assert_eq!(0, cut_detector.get_proposal_count());
    }

    ret = cut_detector.aggregate(Alert::new(
        format!("127.0.0.1:{}", HIGH),
        dst,
        EdgeStatus::Up,
        CONFIG_ID,
        (HIGH - 1).try_into().unwrap(),
    ));

    assert_eq!(1, ret.len());
    assert_eq!(1, cut_detector.get_proposal_count());
}

#[test]
fn cut_detection_test_blocking_one_blocker() {
    let mut cut_detector = MultiNodeCutDetector::new(NUM, HIGH, LOW);
    let dst1 = String::from("127.0.0.2:2");
    let dst2 = String::from("127.0.0.2:3");

    let mut ret;

    for i in 0..HIGH - 1 {
        ret = cut_detector.aggregate(Alert::new(
            format!("127.0.0.1:{}", i + 1),
            dst1.clone(),
            EdgeStatus::Up,
            CONFIG_ID,
            i.try_into().unwrap(),
        ));

        assert_eq!(0, ret.len());
        assert_eq!(0, cut_detector.get_proposal_count());
    }

    for i in 0..HIGH - 1 {
        ret = cut_detector.aggregate(Alert::new(
            format!("127.0.0.1:{}", i + 1),
            dst2.clone(),
            EdgeStatus::Up,
            CONFIG_ID,
            i.try_into().unwrap(),
        ));

        assert_eq!(0, ret.len());
        assert_eq!(0, cut_detector.get_proposal_count());
    }

    ret = cut_detector.aggregate(Alert::new(
        format!("127.0.0.1:{}", HIGH),
        dst1,
        EdgeStatus::Up,
        CONFIG_ID,
        (HIGH - 1).try_into().unwrap(),
    ));

    assert_eq!(0, ret.len());
    assert_eq!(0, cut_detector.get_proposal_count());

    ret = cut_detector.aggregate(Alert::new(
        format!("127.0.0.1:{}", HIGH),
        dst2,
        EdgeStatus::Up,
        CONFIG_ID,
        (HIGH - 1).try_into().unwrap(),
    ));

    assert_eq!(2, ret.len());
    assert_eq!(1, cut_detector.get_proposal_count());
}

#[test]
fn subject_is_released_once() {
    let mut cut_detector = MultiNodeCutDetector::new(NUM, HIGH, LOW);
    let dst = String::from("127.0.0.2:2");
    let mut released = 0;
    for i in 0..NUM {
        let ret = cut_detector.aggregate(Alert::new(
            format!("127.0.0.1:{}", i + 1),
            dst.clone(),
            EdgeStatus::Down,
            CONFIG_ID,
            i.try_into().unwrap(),
        ));
        released += ret.iter().filter(|e| **e == dst).count();
    }
    assert_eq!(released, 1);
    assert_eq!(cut_detector.get_proposal_count(), 1);
}
