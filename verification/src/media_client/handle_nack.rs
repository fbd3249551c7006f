//! What the client does when a fragment it sent could not be delivered.

use vstd::prelude::*;
use crate::media_client::MediaClient;
use crate::message::{
    action_views, Action, ActionView, MediaClientEvent, FLOOD_SETTLE_MILLIS,
};
use crate::packet::{Nack, NackType, NodeId, Packet};

verus! {

impl MediaClient {
    /// Handles a nack for fragment `nack.fragment_index` of session
    /// `session_id` that came from node `nack_src`.
    pub fn handle_nack(&mut self, nack: Nack, session_id: u64, nack_src: NodeId) -> (res: Vec<Action>)
        requires
            old(self).wf(),
        ensures
            final(self).wf(),
            final(self)@ == old(self)@.nacked(nack, session_id, nack_src).0,
            action_views(res@) == old(self)@.nacked(nack, session_id, nack_src).1,
    {
        let mut out: Vec<Action> = Vec::new();
        assert(action_views(out@) =~= Seq::<ActionView>::empty());
        if let NackType::DestinationIsDrone = nack.nack_type {
            let action = self.send_controller(MediaClientEvent::DestinationIsDrone);
            out.push(action);
            assert(action_views(out@) =~= seq![action@]);
        } else if !self.packet_cache.contains_key((session_id, nack.fragment_index)) {
            // nothing is known of the fragment: the nack is reported and
            // leaves the graph as it is
            let action = self.send_controller(
                MediaClientEvent::ErrorPacketCache(session_id, nack.fragment_index),
            );
            out.push(action);
            assert(action_views(out@) =~= seq![action@]);
        } else {
            let blamed = match nack.nack_type {
                NackType::ErrorInRouting(crashed_id) => {
                    let _ = self.router.drone_crashed(crashed_id);
                    crashed_id
                },
                NackType::Dropped => {
                    self.router.dropped_fragment(nack_src);
                    nack_src
                },
                NackType::UnexpectedRecipient(id) => id,
                NackType::DestinationIsDrone => nack_src,
            };
            self.resend_for_nack(session_id, nack.fragment_index, blamed, &mut out);
        }
        proof {
            let seen = old(self)@.nacked(nack, session_id, nack_src);
            assert(Seq::<ActionView>::empty() + seen.1 =~= seen.1);
        }
        out
    }

    /// Counts one more request for the fragment, takes the measures that the
    /// count calls for, and sends the fragment again; `nack_src` is the node
    /// that the nack is laid to. What is to be done is added to `out`.
    pub fn resend_for_nack(
        &mut self,
        session_id: u64,
        fragment_index: u64,
        nack_src: NodeId,
        out: &mut Vec<Action>,
    )
        requires
            old(self).wf(),
        ensures
            final(self).wf(),
            final(self)@ == old(self)@.resent(session_id, fragment_index, nack_src).0,
            action_views(final(out)@) == action_views(old(out)@) + old(self)@.resent(
                session_id,
                fragment_index,
                nack_src,
            ).1,
    {
        let ghost start = action_views(out@);
        let found = self.packet_cache.get_value((session_id, fragment_index));
        let (packet, freq) = match found {
            Some(value) => value,
            None => {
                let action = self.send_controller(
                    MediaClientEvent::ErrorPacketCache(session_id, fragment_index),
                );
                out.push(action);
                proof {
                    assert(action_views(out@) =~= start + seq![action@]);
                }
                return;
            },
        };
        if freq > 10 {
            // the node is taken for crashed; where the graph does not hold
            // it, the whole graph is built anew
            if self.router.drone_crashed(nack_src).is_err() {
                self.router.clear_routing_table();
            }
            self.flood_network(FLOOD_SETTLE_MILLIS, out);
        } else if freq > 5 {
            self.flood_network(FLOOD_SETTLE_MILLIS, out);
        }
        let ghost flood = action_views(out@);
        let destination = match packet.routing_header.destination() {
            Some(destination) => destination,
            None => {
                return;
            },
        };
        let packet = match self.router.get_source_routing_header(destination) {
            Ok(new_header) => {
                Packet {
                    routing_header: new_header,
                    session_id: packet.session_id,
                    pack_type: packet.pack_type,
                }
            },
            Err(_) => {
                let action = self.send_controller(MediaClientEvent::UnreachableNode(destination));
                out.push(action);
                proof {
                    assert(action_views(out@) =~= flood.push(action@));
                }
                packet
            },
        };
        let ghost before = action_views(out@);
        match self.send_packet(packet, None) {
            Some(action) => {
                out.push(action);
                proof {
                    assert(action_views(out@) =~= before.push(action@));
                }
            },
            None => {},
        }
        proof {
            let seen = old(self)@.resent(session_id, fragment_index, nack_src);
            assert(action_views(out@) =~= start + seen.1);
        }
    }
}

} // verus!
