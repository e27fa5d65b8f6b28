use clique::broadcast::{Broadcast, Message};
use clique::list::PeerList;
use clique::peer::Peer;
use clique::protocol::{Packet, PacketKind};

#[test]
fn list_gossip_single_node() {
    let mut list = PeerList::new();

    let addr = "127.0.0.1:8888".to_string();
    let peer = Peer::new("name".into(), addr);

    list.add(peer.clone());

    assert_eq!(list.pick_gossip(), Some(peer));
}

#[test]
fn gossip_picks_the_last_added_and_empties() {
    let mut list = PeerList::new();
    let a = Peer::new("a".into(), "10.0.0.1:1".to_string());
    let b = Peer::new("b".into(), "10.0.0.2:1".to_string());
    list.add(a.clone());
    list.add(b.clone());
    assert_eq!(list.pick_gossip(), Some(b));
    assert_eq!(list.pick_gossip(), Some(a));
    assert_eq!(list.pick_gossip(), None);
}

#[test]
fn same_address_replaces_in_place() {
    let mut list = PeerList::new();
    let a = Peer::new("a".into(), "10.0.0.1:1".to_string());
    let b = Peer::new("b".into(), "10.0.0.2:1".to_string());
    let a2 = Peer::new("a2".into(), "10.0.0.1:1".to_string());
    list.add(a);
    list.add(b.clone());
    list.add(a2.clone());
    assert_eq!(list.pick_gossip(), Some(b));
    assert_eq!(list.pick_gossip(), Some(a2));
}

#[test]
fn remove_moves_the_last_into_place() {
    let mut list = PeerList::new();
    let a = Peer::new("a".into(), "10.0.0.1:1".to_string());
    let b = Peer::new("b".into(), "10.0.0.2:1".to_string());
    let c = Peer::new("c".into(), "10.0.0.3:1".to_string());
    list.add(a.clone());
    list.add(b.clone());
    list.add(c.clone());
    list.remove(a.clone());
    assert_eq!(list.pick_gossip(), Some(b));
    assert_eq!(list.pick_gossip(), Some(c));
    assert_eq!(list.pick_gossip(), None);
    assert_eq!(a.addr(), "10.0.0.1:1");
}

#[test]
fn packets_keep_their_parts() {
    let b = Broadcast::new(Message::Alive);
    let p = Packet::ping("10.0.0.1:1".to_string(), 7, vec![b]);
    assert_eq!(*p.kind(), PacketKind::Ping);
    assert_eq!(p.seq(), 7);
    assert_eq!(p.addr(), "10.0.0.1:1");
    assert_eq!(p.broadcasts()[0].uuid(), b.uuid());
    assert_eq!(Packet::ack("x".to_string(), 1, vec![]).into_kind(), PacketKind::Ack);
    assert_eq!(Packet::ping_req("x".to_string(), 1, vec![]).into_kind(), PacketKind::PingReq);
    assert_eq!(Packet::nack("x".to_string(), 1, vec![]).into_kind(), PacketKind::NAck);
    assert_eq!(Packet::new("x".to_string(), PacketKind::Ack, 3, vec![]).seq(), 3);
}
