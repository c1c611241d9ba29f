//! The lossy, addressed message fabric: an immutable mapping from peer to
//! the sending half of that peer's inbound channel, plus a fixed drop
//! probability in parts per million.
use vstd::prelude::*;

use crate::RouterError;
use crate::chan::send_packet;
use crate::ids::Packet;
use crate::ids::PeerId;
use crate::rng::PPM_SCALE;
use crate::rng::gen_below;

verus! {

use crate::assoc::{keys_unique, has_key};

/// The drop rule of the router: a uniform draw below the configured
/// rate discards the message.  A rate of zero never drops; a rate of one
/// (the full scale) always drops.
pub fn should_drop(draw: usize, drop_rate_ppm: u32) -> (r: bool)
    requires
        draw < PPM_SCALE,
    ensures
        r == (draw < drop_rate_ppm),
        drop_rate_ppm == 0 ==> !r,
        drop_rate_ppm >= PPM_SCALE ==> r,
{
    draw < drop_rate_ppm as usize
}

/// Process-wide, read-only dispatch table; shared by all workers.
pub struct Router {
    packet_drop_rate_ppm: u32,
    routes: Vec<(PeerId, crossbeam_channel::Sender<Packet>)>,
}

impl Router {
    /// Well-formedness: the drop rate is a probability and no peer is
    /// listed twice.
    pub closed spec fn wf(&self) -> bool {
        &&& keys_unique(self.routes@)
        &&& self.packet_drop_rate_ppm <= PPM_SCALE
    }

    /// The fixed set of reachable destinations.
    pub closed spec fn spec_peers(&self) -> Set<PeerId> {
        Set::new(|p: PeerId| has_key(self.routes@, p))
    }

    /// The probability of silently discarding a message, in parts per
    /// million.
    pub closed spec fn spec_drop_ppm(&self) -> u32 {
        self.packet_drop_rate_ppm
    }

    /// Builds the router over the peers' channel senders.  Fails fast
    /// when the drop rate is not a probability, or when a peer is listed
    /// twice; succeeds exactly otherwise.
    pub fn new(
        packet_drop_rate_ppm: u32,
        nodes: Vec<(PeerId, crossbeam_channel::Sender<Packet>)>,
    ) -> (r: Result<Router, RouterError>)
        ensures
            r is Ok <==> (packet_drop_rate_ppm <= PPM_SCALE && keys_unique(nodes@)),
            match r {
                Ok(router) => {
                    &&& router.wf()
                    &&& router.spec_drop_ppm() == packet_drop_rate_ppm
                    &&& forall|p: PeerId| #[trigger]
                        router.spec_peers().contains(p) <==> has_key(nodes@, p)
                },
                Err(e) => {
                    ||| (e == RouterError::InvalidPacketDropRate(packet_drop_rate_ppm)
                        && packet_drop_rate_ppm > PPM_SCALE)
                    ||| (packet_drop_rate_ppm <= PPM_SCALE && exists|a: int, b: int|
                        0 <= a < b < nodes@.len() && (#[trigger] nodes@[a]).0 == (
                        #[trigger] nodes@[b]).0 && e == RouterError::DuplicatePubkey(nodes@[b].0))
                },
            },
    {
        if packet_drop_rate_ppm > PPM_SCALE {
            return Err(RouterError::InvalidPacketDropRate(packet_drop_rate_ppm));
        }
        let n = nodes.len();
        let mut i: usize = 0;
        while i < n
            invariant
                packet_drop_rate_ppm <= PPM_SCALE,
                n == nodes@.len(),
                i <= n,
                forall|a: int, b: int|
                    #![trigger nodes@[a], nodes@[b]]
                    0 <= a < b < i ==> nodes@[a].0 != nodes@[b].0,
            decreases n - i,
        {
            let mut j: usize = 0;
            while j < i
                invariant
                    packet_drop_rate_ppm <= PPM_SCALE,
                    n == nodes@.len(),
                    i < n,
                    j <= i,
                    forall|w: int| 0 <= w < j ==> (#[trigger] nodes@[w]).0 != nodes@[i as int].0,
                decreases i - j,
            {
                if nodes[j].0 == nodes[i].0 {
                    proof {
                        assert((nodes@[j as int]).0 == (nodes@[i as int]).0);
                        assert(!keys_unique(nodes@));
                    }
                    return Err(RouterError::DuplicatePubkey(nodes[i].0));
                }
                j += 1;
            }
            i += 1;
        }
        proof {
            assert(keys_unique(nodes@));
        }
        let router = Router { packet_drop_rate_ppm, routes: nodes };
        Ok(router)
    }

    /// Sends a message toward a peer's inbox.  With the configured
    /// probability the message is silently discarded, which still counts
    /// as success: loss models the unreliable transport.  An unknown
    /// destination is a dispatch bug; a torn-down channel is fatal.
    pub fn send(&self, rng: &mut rand::rngs::StdRng, node: &PeerId, data: Packet) -> (r: Result<
        (),
        RouterError,
    >)
        requires
            self.wf(),
        ensures
            r == Err::<(), RouterError>(RouterError::NodeNotFound(*node)) <==> !self.spec_peers()
                .contains(*node),
            r is Err ==> r == Err::<(), RouterError>(RouterError::NodeNotFound(*node)) || r
                == Err::<(), RouterError>(RouterError::SendError),
            self.spec_drop_ppm() >= PPM_SCALE && self.spec_peers().contains(*node) ==> r
                == Ok::<(), RouterError>(()),
    {
        let m = self.routes.len();
        let mut j: usize = 0;
        while j < m
            invariant
                m == self.routes@.len(),
                j <= m,
                self.wf(),
                forall|w: int| 0 <= w < j ==> (#[trigger] self.routes@[w]).0 != *node,
            decreases m - j,
        {
            if self.routes[j].0 == *node {
                proof {
                    assert(has_key(self.routes@, *node));
                }
                let draw = gen_below(rng, PPM_SCALE as usize);
                if should_drop(draw, self.packet_drop_rate_ppm) {
                    // silently drop the packet
                    return Ok(());
                }
                if send_packet(&self.routes[j].1, data) {
                    return Ok(());
                } else {
                    return Err(RouterError::SendError);
                }
            }
            j += 1;
        }
        proof {
            assert(!has_key(self.routes@, *node));
        }
        Err(RouterError::NodeNotFound(*node))
    }
}

} // verus!
