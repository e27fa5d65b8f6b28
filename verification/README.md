# clique

A membership library after the Rapid protocol: members are placed on `K`
monitoring rings by seeded xxHash, observers report the edges to their
subjects, and a multi-node cut detector turns reports into proposals, which
are announced with a Fast Paxos vote (classic Paxos is its fallback). The
fast round only reports a fast quorum; classic Paxos records Phase 2b votes
and decides on a majority, but the value is not handed on to the membership.
A decided proposal is applied through `Membership::on_decide`.

`src/` is the verified library (Verus). Its modules:

- `membership::ring`, `membership::view`: the rings, the view of the
  membership and its configuration identifier.
- `membership::cut_detector`: the cut detector.
- `membership`: the membership service of one member, as a state machine
  that takes messages, timer readings and decisions and hands back what to
  send.
- `consensus`, `consensus::paxos`: Fast Paxos and classic Paxos.
- `join`: the joiner's side of the join protocol.
- `broadcast`, `list`, `peer`, `protocol`: the gossip side: a transmit-limited
  broadcast queue, the peer list and the packets.
- `monitor`: the tally of probe outcomes that decides when a subject failed.
- `transport`: messages, requests and responses.

`app/` runs a member around the library: the transport trait, the event loop,
the timers, the join loop and the probing tasks.
