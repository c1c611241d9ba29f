//! Identifiers of the simulated cluster: peers, record keys and the wire
//! packet.  Peer identities are opaque comparable tokens; no real
//! cryptographic identity is modeled.
use vstd::prelude::*;

verus! {

/// Opaque, comparable, hashable identifier of a participant.
#[derive(Clone, Copy, Debug, PartialEq, Eq, Structural, Hash)]
pub struct PeerId(pub u64);

/// Identifies one logical record: the originating peer and a slot index
/// within that origin's record space.
#[derive(Clone, Copy, Debug, PartialEq, Eq, Structural, Hash)]
pub struct CrdsKey {
    pub from: PeerId,
    pub index: usize,
}

/// The wire unit exchanged between nodes: just enough to update a remote
/// versioned table, no payload.
#[derive(Clone, Copy, Debug, PartialEq, Eq, Structural)]
pub struct Packet {
    pub from: PeerId,
    pub index: usize,
    pub ordinal: u64,
}

impl Packet {
    /// The record key this packet speaks about.
    pub open spec fn spec_key(self) -> CrdsKey {
        CrdsKey { from: self.from, index: self.index }
    }

    pub fn key(&self) -> (k: CrdsKey)
        ensures
            k == self.spec_key(),
    {
        CrdsKey { from: self.from, index: self.index }
    }
}

} // verus!
