//! Discrete-event simulator of a stake-weighted, push-based gossip protocol.
//!
//! Each node keeps a versioned table of records and repeatedly runs a
//! drain-merge-refresh-fanout round; a lossy router connects the nodes'
//! inboxes.  The merge rule is monotone, commutative and idempotent, which
//! makes the final state independent of scheduling and delivery order.
use vstd::prelude::*;

pub mod assoc;
pub mod chan;
pub mod fanout;
pub mod ids;
pub mod node;
pub mod rng;
pub mod report;
pub mod router;
pub mod stakes;
pub mod table;

pub use router::Router;

verus! {

use vstd::string::StringSliceAdditionalSpecFns;

pub const API_MAINNET_BETA: &'static str = "https://api.mainnet-beta.solana.com";

pub const API_TESTNET: &'static str = "https://api.testnet.solana.com";

/// Errors raised while constructing or driving the router.
#[derive(Clone, Copy, Debug, PartialEq, Eq, Structural)]
pub enum RouterError {
    /// The same peer was listed twice when the router was built.
    DuplicatePubkey(ids::PeerId),
    /// The packet drop rate is not a probability (above one).
    InvalidPacketDropRate(u32),
    /// The destination peer is not part of the fixed peer set.
    NodeNotFound(ids::PeerId),
    /// The destination's channel was torn down (receiver dropped).
    SendError,
}

/// Fatal errors of a simulation run.
#[derive(Clone, Copy, Debug, PartialEq, Eq, Structural)]
pub enum Error {
    RouterError(RouterError),
    /// A worker terminated abnormally while holding a node's lock.
    TryLockErrorPoisoned,
}

impl From<RouterError> for Error {
    fn from(e: RouterError) -> (r: Error) {
        Error::RouterError(e)
    }
}

impl vstd::std_specs::convert::FromSpecImpl<RouterError> for Error {
    open spec fn obeys_from_spec() -> bool {
        true
    }

    open spec fn from_spec(e: RouterError) -> Error {
        Error::RouterError(e)
    }
}

/// Byte-for-byte string comparison; equal bytes mean equal character
/// sequences because UTF-8 encoding is injective.
pub fn str_eq(a: &str, b: &str) -> (r: bool)
    ensures
        r == (a@ == b@),
{
    let ab = a.as_bytes();
    let bb = b.as_bytes();
    proof {
        if a@ == b@ {
            assert(a.spec_bytes() == b.spec_bytes());
        }
    }
    if ab.len() != bb.len() {
        return false;
    }
    let n = ab.len();
    let mut i: usize = 0;
    while i < n
        invariant
            n == ab@.len() == bb@.len(),
            i <= n,
            ab@ == a.spec_bytes(),
            bb@ == b.spec_bytes(),
            forall|j: int| 0 <= j < i ==> ab@[j] == bb@[j],
        decreases n - i,
    {
        if ab[i] != bb[i] {
            proof {
                if a@ == b@ {
                    assert(a.spec_bytes() == b.spec_bytes());
                }
            }
            return false;
        }
        i += 1;
    }
    proof {
        assert(a.spec_bytes() =~= b.spec_bytes());
        vstd::utf8::encode_utf8_decode_utf8(a@);
        vstd::utf8::encode_utf8_decode_utf8(b@);
    }
    true
}

/// Expands the `m`/`t` monikers to the corresponding endpoint; any other
/// string is returned unchanged.
pub fn get_json_rpc_url<'a>(json_rpc_url: &'a str) -> (r: &'a str)
    ensures
        (json_rpc_url@ == "m"@ || json_rpc_url@ == "mainnet-beta"@) ==> r@
            == "https://api.mainnet-beta.solana.com"@,
        (json_rpc_url@ == "t"@ || json_rpc_url@ == "testnet"@) ==> r@
            == "https://api.testnet.solana.com"@,
        !(json_rpc_url@ == "m"@ || json_rpc_url@ == "mainnet-beta"@ || json_rpc_url@ == "t"@
            || json_rpc_url@ == "testnet"@) ==> r@ == json_rpc_url@,
{
    proof {
        reveal_strlit("m");
        reveal_strlit("mainnet-beta");
        reveal_strlit("t");
        reveal_strlit("testnet");
        reveal_strlit("https://api.mainnet-beta.solana.com");
        reveal_strlit("https://api.testnet.solana.com");
        assert("m"@.len() == 1 && "t"@.len() == 1);
        assert("mainnet-beta"@.len() == 12 && "testnet"@.len() == 7);
        assert("m"@[0] == 'm' && "t"@[0] == 't');
    }
    if str_eq(json_rpc_url, "m") || str_eq(json_rpc_url, "mainnet-beta") {
        "https://api.mainnet-beta.solana.com"
    } else if str_eq(json_rpc_url, "t") || str_eq(json_rpc_url, "testnet") {
        "https://api.testnet.solana.com"
    } else {
        json_rpc_url
    }
}

} // verus!
