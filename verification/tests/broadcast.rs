use clique::broadcast::{Broadcast, LimitedBroadcast, Message, TransmitQueue, MAX_TRANSMITS};
use clique::order::Precedence;

fn random_message() -> Message {
    match rand::random::<u8>() % 3 {
        0 => Message::Joined,
        1 => Message::Alive,
        _ => Message::Leave,
    }
}

fn gen_broadcasts(n: usize) -> Vec<Broadcast> {
    (0..n).map(|_| Broadcast::new(random_message())).collect()
}

#[test]
fn invalidate_existing() {
    let broadcasts = gen_broadcasts(1);
    let mut queue = TransmitQueue::new();

    queue.enqueue(broadcasts[0].clone());
    let packet = queue.get_broadcasts(1500).unwrap();
    assert_eq!(packet.len(), 1);

    queue.enqueue(broadcasts[0].clone());
    let packet = queue.get_broadcasts(1500).unwrap();
    assert_eq!(packet.len(), 1);
}

#[test]
fn get_to_limit() {
    let broadcasts = gen_broadcasts(5);
    let mut queue = TransmitQueue::new();

    broadcasts.into_iter().for_each(|b| queue.enqueue(b));

    let packets = queue.get_broadcasts(100).unwrap();
    assert_eq!(packets.len(), 3);
}

#[test]
fn empty_queue() {
    let broadcasts = gen_broadcasts(5);
    let mut queue = TransmitQueue::new();

    broadcasts.into_iter().for_each(|b| queue.enqueue(b));
    let mut counter = 0;

    while queue.len() > 0 {
        let _packets = queue.get_broadcasts(100).unwrap();
        counter += 1;
    }

    // Every item is handed out until it reaches the transmit limit; with five
    // items and room for three per call, emptying the queue takes 10 calls.
    assert_eq!(counter, 10);
}

#[test]
fn correct_ordering() {
    let broadcasts = gen_broadcasts(5);
    let ids: Vec<u128> = broadcasts.iter().map(|b| b.uuid()).collect();
    let mut queue = TransmitQueue::new();

    broadcasts.into_iter().for_each(|b| queue.enqueue(b));

    let mut queue_ids = vec![];

    while queue.len() > 0 {
        let packets = queue.get_broadcasts(100).unwrap();
        packets.iter().for_each(|p| queue_ids.push(p.uuid()));
    }

    // 3 items per round, 10 rounds
    assert_eq!(queue_ids.len(), 30);

    ids.iter()
        .rev()
        .cycle()
        .zip(queue_ids.iter())
        .for_each(|(expected, result)| assert_eq!(expected, result));
}

#[test]
fn broadcast_keeps_message() {
    let b = Broadcast::new(Message::Leave);
    assert_eq!(b.message(), Message::Leave);
    assert_eq!(Message::Joined.tag(), 0);
    assert_eq!(Message::Alive.tag(), 1);
    assert_eq!(Message::Leave.tag(), 2);
}

#[test]
fn fresh_broadcasts_differ() {
    let a = Broadcast::new(Message::Alive);
    let b = Broadcast::new(Message::Alive);
    assert_ne!(a.uuid(), b.uuid());
}

#[test]
fn new_queue_is_empty() {
    let queue = TransmitQueue::new();
    assert_eq!(queue.len(), 0);
}

#[test]
fn limit_below_one_broadcast_hands_out_nothing() {
    let mut queue = TransmitQueue::new();
    queue.enqueue(Broadcast::new(Message::Joined));
    // The empty list takes 8 bytes and each broadcast 28: 35 bytes leave no room.
    let packets = queue.get_broadcasts(35).unwrap();
    assert!(packets.is_empty());
    assert_eq!(queue.len(), 1);
    // 36 bytes fit one broadcast.
    let packets = queue.get_broadcasts(36).unwrap();
    assert_eq!(packets.len(), 1);
    assert_eq!(queue.len(), 1);
}

#[test]
fn huge_limit_hands_out_everything_newest_first() {
    let broadcasts = gen_broadcasts(4);
    let mut queue = TransmitQueue::new();
    for b in &broadcasts {
        queue.enqueue(*b);
    }
    let packets = queue.get_broadcasts(usize::MAX / 2).unwrap();
    let got: Vec<u128> = packets.iter().map(|b| b.uuid()).collect();
    let want: Vec<u128> = broadcasts.iter().rev().map(|b| b.uuid()).collect();
    assert_eq!(got, want);
}

#[test]
fn items_leave_after_the_transmit_limit() {
    let mut queue = TransmitQueue::new();
    queue.enqueue(Broadcast::new(Message::Alive));
    let mut sent = 0;
    while queue.len() > 0 {
        sent += queue.get_broadcasts(1500).unwrap().len();
    }
    assert_eq!(sent as u64, MAX_TRANSMITS + 1);
}

#[test]
fn enqueue_replaces_older_version() {
    let b = Broadcast::new(Message::Joined);
    let mut queue = TransmitQueue::new();
    queue.enqueue(b);
    queue.enqueue(b);
    assert_eq!(queue.len(), 1);
    let other = Broadcast::new(Message::Leave);
    queue.enqueue(other);
    assert_eq!(queue.len(), 2);
    let packets = queue.get_broadcasts(1500).unwrap();
    assert_eq!(packets[0].uuid(), other.uuid());
    assert_eq!(packets[1].uuid(), b.uuid());
}

#[test]
fn compare_orders_by_transmits_then_newest() {
    let a = Broadcast::new(Message::Joined);
    let x = LimitedBroadcast::gen(0, 5, a);
    let y = LimitedBroadcast::gen(0, 3, a);
    let z = LimitedBroadcast::gen(1, 9, a);
    assert_eq!(x.compare(&y), Precedence::Before);
    assert_eq!(y.compare(&x), Precedence::After);
    assert_eq!(y.compare(&z), Precedence::Before);
    assert_eq!(x.compare(&x), Precedence::Same);
    assert!(x.is_version_of(&a));
}

#[test]
fn emptied_queue_keeps_later_broadcasts_apart() {
    let mut queue = TransmitQueue::new();
    let b1 = Broadcast::new(Message::Alive);
    let b2 = Broadcast::new(Message::Alive);
    queue.enqueue(b1);
    assert_eq!(queue.get_broadcasts(1500).unwrap(), vec![b1]);
    queue.enqueue(b2);
    // b1 was handed out once; b2 is newer and goes first. Both stay queued.
    assert_eq!(queue.get_broadcasts(36).unwrap(), vec![b2]);
    assert_eq!(queue.len(), 2);
}

#[test]
fn empty_queue_hands_out_nothing() {
    let mut queue = TransmitQueue::new();
    assert!(queue.get_broadcasts(100).unwrap().is_empty());
    assert_eq!(queue.len(), 0);
}

#[test]
fn lookup_answer_decides_whether_old_versions_go() {
    let b = Broadcast::new(Message::Joined);
    let mut queue = TransmitQueue::new();
    let other = Broadcast::new(Message::Alive);
    queue.enqueue_after_lookup(b, false);
    queue.enqueue_after_lookup(other, false);
    assert_eq!(queue.len(), 2);
    queue.enqueue_after_lookup(b, true);
    assert_eq!(queue.len(), 2);
    assert_eq!(queue.get_broadcasts(1500).unwrap(), vec![b, other]);
    let mut queue = TransmitQueue::new();
    queue.enqueue_after_lookup(b, false);
    queue.enqueue_after_lookup(b, true);
    assert_eq!(queue.len(), 1);
    assert_eq!(queue.get_broadcasts(1500).unwrap(), vec![b]);
}

#[test]
fn re_enqueue_keeps_one_version() {
    let mut queue = TransmitQueue::new();
    let b = Broadcast::new(Message::Alive);
    queue.enqueue(b);
    assert_eq!(queue.get_broadcasts(1500).unwrap(), vec![b]);
    queue.enqueue(b);
    assert_eq!(queue.len(), 1);
    assert_eq!(queue.get_broadcasts(1500).unwrap(), vec![b]);
}
