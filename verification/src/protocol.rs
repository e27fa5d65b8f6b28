//! The packets of the gossip protocol. A peer's address is held as its text,
//! such as `127.0.0.1:8888`.
use crate::broadcast::{broadcasts_view, Broadcast};
use crate::common::Endpoint;
use vstd::prelude::*;

verus! {

/// The sequence number of a packet.
pub type SeqNum = u32;

/// What a packet is.
#[derive(Debug, Clone, Copy, PartialEq, Eq, Structural)]
pub enum PacketKind {
    Ping,
    Ack,
    PingReq,
    NAck,
}

/// A packet to or from `addr`, with the broadcasts it carries.
#[derive(Debug, Clone)]
pub struct Packet {
    addr: Endpoint,
    seq: SeqNum,
    kind: PacketKind,
    broadcasts: Vec<Broadcast>,
}

impl Packet {
    pub closed spec fn addr_spec(&self) -> Seq<char> {
        self.addr@
    }

    pub closed spec fn seq_spec(&self) -> SeqNum {
        self.seq
    }

    pub closed spec fn kind_spec(&self) -> PacketKind {
        self.kind
    }

    pub closed spec fn broadcasts_spec(&self) -> Seq<(u128, crate::broadcast::Message)> {
        broadcasts_view(self.broadcasts@)
    }

    pub fn new(addr: Endpoint, kind: PacketKind, seq: SeqNum, broadcasts: Vec<Broadcast>) -> (p: Self)
        ensures
            p.addr_spec() == addr@,
            p.kind_spec() == kind,
            p.seq_spec() == seq,
            p.broadcasts_spec() == broadcasts_view(broadcasts@),
    {
        Packet { addr, seq, kind, broadcasts }
    }

    pub fn ping(addr: Endpoint, seq: SeqNum, broadcasts: Vec<Broadcast>) -> (p: Self)
        ensures
            p.addr_spec() == addr@,
            p.kind_spec() == PacketKind::Ping,
            p.seq_spec() == seq,
            p.broadcasts_spec() == broadcasts_view(broadcasts@),
    {
        Packet::new(addr, PacketKind::Ping, seq, broadcasts)
    }

    pub fn ack(addr: Endpoint, seq: SeqNum, broadcasts: Vec<Broadcast>) -> (p: Self)
        ensures
            p.addr_spec() == addr@,
            p.kind_spec() == PacketKind::Ack,
            p.seq_spec() == seq,
            p.broadcasts_spec() == broadcasts_view(broadcasts@),
    {
        Packet::new(addr, PacketKind::Ack, seq, broadcasts)
    }

    pub fn ping_req(addr: Endpoint, seq: SeqNum, broadcasts: Vec<Broadcast>) -> (p: Self)
        ensures
            p.addr_spec() == addr@,
            p.kind_spec() == PacketKind::PingReq,
            p.seq_spec() == seq,
            p.broadcasts_spec() == broadcasts_view(broadcasts@),
    {
        Packet::new(addr, PacketKind::PingReq, seq, broadcasts)
    }

    pub fn nack(addr: Endpoint, seq: SeqNum, broadcasts: Vec<Broadcast>) -> (p: Self)
        ensures
            p.addr_spec() == addr@,
            p.kind_spec() == PacketKind::NAck,
            p.seq_spec() == seq,
            p.broadcasts_spec() == broadcasts_view(broadcasts@),
    {
        Packet::new(addr, PacketKind::NAck, seq, broadcasts)
    }

    pub fn addr(&self) -> (a: &Endpoint)
        ensures
            a@ == self.addr_spec(),
    {
        &self.addr
    }

    pub fn seq(&self) -> (s: SeqNum)
        ensures
            s == self.seq_spec(),
    {
        self.seq
    }

    pub fn broadcasts(&self) -> (b: &Vec<Broadcast>)
        ensures
            broadcasts_view(b@) == self.broadcasts_spec(),
    {
        &self.broadcasts
    }

    pub fn kind(&self) -> (k: &PacketKind)
        ensures
            *k == self.kind_spec(),
    {
        &self.kind
    }

    pub fn into_kind(self) -> (k: PacketKind)
        ensures
            k == self.kind_spec(),
    {
        self.kind
    }
}

} // verus!
