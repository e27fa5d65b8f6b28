//! Identifiers shared by the whole library.
use uuid::Uuid;
use vstd::prelude::*;

verus! {

/// The configuration that we are currently on.
pub type ConfigId = i64;

/// The ring identifier for which ring this node is from.
pub type RingNumber = i32;

/// Represents some _node/destination_ in the system.
pub type Endpoint = String;

/// Events that the scheduler hands back to the membership loop.
pub enum SchedulerEvents {
    /// Event to trigger the start of a classic paxos round
    StartClassicRound,
    /// An event that has no return type
    Idle,
    /// An event to surface consensus decision
    Decision(Vec<Endpoint>),
}

/// The `i`th byte (most significant first) of the 128-bit identifier `id`.
pub open spec fn be_byte(id: u128, i: int) -> u8 {
    ((id >> ((120 - 8 * i) as u128)) & 0xff) as u8
}

/// The sixteen bytes of `id`, most significant first.
pub open spec fn be_bytes(id: u128) -> Seq<u8> {
    Seq::new(16, |i: int| be_byte(id, i))
}

/// Whether `id` is a random (version 4) UUID of the RFC 4122 variant: the high
/// nibble of its seventh byte is 4 and the two high bits of its ninth byte are
/// `10`.
pub open spec fn is_random_v4(id: u128) -> bool {
    &&& be_bytes(id)[6] / 16 == 4
    &&& be_bytes(id)[8] / 64 == 2
}

/// A lower-case hexadecimal digit.
pub open spec fn hex_digit(n: u128) -> char {
    if n < 10 {
        ((48 + n) as u8) as char
    } else {
        ((87 + n) as u8) as char
    }
}

/// The `k`th hexadecimal digit (most significant first) of `id`.
pub open spec fn nibble(id: u128, k: int) -> u128 {
    (id >> ((124 - 4 * k) as u128)) & 0xf
}

/// Which digit stands at character `p` of the hyphenated form (the hyphens sit at
/// 8, 13, 18 and 23).
pub open spec fn digit_at(p: int) -> int {
    if p < 8 {
        p
    } else if p < 13 {
        p - 1
    } else if p < 18 {
        p - 2
    } else if p < 23 {
        p - 3
    } else {
        p - 4
    }
}

/// The hyphenated lower-case text of a UUID, such as
/// `a1a2a3a4-b1b2-c1c2-d1d2-d3d4d5d6d7d8`.
pub open spec fn hyphenated(id: u128) -> Seq<char> {
    Seq::new(
        36,
        |p: int|
            if p == 8 || p == 13 || p == 18 || p == 23 {
                '-'
            } else {
                hex_digit(nibble(id, digit_at(p)))
            },
    )
}

/// Calls `uuid::Uuid::new_v4` and hands back the value as an integer, its
/// bytes most significant first (`as_u128`). The bytes are random but for the
/// version and variant bits, which `new_v4` sets with `Builder::set_version`
/// (version 4, "Random") and `Builder::set_variant` (RFC 4122): that is all
/// that is claimed. (`new_v4` panics when the operating system cannot supply
/// random bytes.)
#[verifier::external_body]
pub(crate) fn random_uuid() -> (id: u128)
    ensures
        is_random_v4(id),
{
    Uuid::new_v4().as_u128()
}

/// Calls `uuid::Uuid::from_u128` and `as_bytes`: the claim is that the bytes are
/// the integer's bytes, most significant first, as the source of `from_u128`
/// builds them.
#[verifier::external_body]
fn uuid_bytes(id: u128) -> (b: Vec<u8>)
    ensures
        b@ == be_bytes(id),
{
    Uuid::from_u128(id).as_bytes().to_vec()
}

/// Calls `uuid::Uuid::from_u128`, `to_hyphenated` and `to_string`: the claim is
/// that the text is the 32 lower-case hexadecimal digits of the integer, most
/// significant first, in groups of 8-4-4-4-12 joined by hyphens.
#[verifier::external_body]
fn uuid_hyphenated(id: u128) -> (s: String)
    ensures
        s@ == hyphenated(id),
{
    Uuid::from_u128(id).to_hyphenated().to_string()
}

/// Represents the NodeId; internally it is a version 4 UUID, held as the
/// 128-bit integer whose big-endian bytes are the UUID's bytes.
#[derive(Debug, Clone, Copy, PartialEq, Eq, Structural, Hash, PartialOrd, Ord)]
pub struct NodeId(u128);

impl NodeId {
    /// The integer value of the identifier.
    pub closed spec fn id(self) -> u128 {
        self.0
    }

    /// Identifiers are equal exactly when their values are.
    pub proof fn lemma_id_injective(a: NodeId, b: NodeId)
        ensures
            (a.id() == b.id()) == (a == b),
    {
    }

    /// A fresh random identifier: a version 4 UUID of the RFC 4122 variant.
    pub fn new() -> (n: Self)
        ensures
            is_random_v4(n.id()),
    {
        NodeId(random_uuid())
    }

    /// The identifier whose UUID is the big-endian reading of `v`.
    pub fn from_u128(v: u128) -> (n: Self)
        ensures
            n.id() == v,
    {
        NodeId(v)
    }

    /// The integer value of the identifier.
    pub fn as_u128(&self) -> (v: u128)
        ensures
            v == self.id(),
    {
        self.0
    }

    /// The sixteen bytes of the UUID.
    pub fn as_bytes(&self) -> (b: Vec<u8>)
        ensures
            b@ == be_bytes(self.id()),
    {
        uuid_bytes(self.0)
    }

    /// The hyphenated lower-case form of the UUID.
    pub fn to_string(&self) -> (s: String)
        ensures
            s@ == hyphenated(self.id()),
    {
        uuid_hyphenated(self.0)
    }
}

impl Default for NodeId {
    /// The nil identifier.
    fn default() -> (n: Self)
        ensures
            n.id() == 0,
    {
        NodeId(0)
    }
}

} // verus!
