//! A peer of the gossip protocol. Its address is held as its text.
use crate::common::Endpoint;
use vstd::prelude::*;

verus! {

/// Whether a peer is believed alive.
#[derive(Debug, Clone, Copy, PartialEq, Eq, Structural)]
pub enum State {
    Alive,
    Suspect,
    Dead,
}

/// The view of a peer: its name, its address and its state.
pub type PeerView = (Seq<char>, Seq<char>, State);

/// A peer, by name and address.
#[derive(Debug, Clone, PartialEq, Eq)]
pub struct Peer {
    name: String,
    addr: Endpoint,
    state: State,
}

impl View for Peer {
    type V = PeerView;

    closed spec fn view(&self) -> PeerView {
        (self.name@, self.addr@, self.state)
    }
}

impl Peer {
    /// A live peer. Its address is a socket address in the text a parsed
    /// socket address displays as, the one form of each address: peers are
    /// told apart by that text, so an address written another way must be
    /// parsed and displayed again before it is handed in.
    pub fn new(name: String, addr: Endpoint) -> (p: Self)
        ensures
            p@ == (name@, addr@, State::Alive),
    {
        Peer { name, addr, state: State::Alive }
    }

    pub fn addr(&self) -> (a: Endpoint)
        ensures
            a@ == self@.1,
    {
        self.addr.clone()
    }
}

} // verus!
