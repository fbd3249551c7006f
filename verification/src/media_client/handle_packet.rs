//! What the client does with a packet that came in.

use vstd::prelude::*;
use crate::media_client::MediaClient;
use crate::message::{action_views, Action, ActionView};
use crate::model::{flood_response_for, response_hops};
use crate::packet::{
    trace_ids, FloodRequest, FloodResponse, Nack, NackType, NodeId, NodeKind, Packet, PacketType,
    RoutingHeader,
};

verus! {

impl MediaClient {
    /// Handles one packet and returns what is to be done.
    pub fn handle_packet(&mut self, packet: Packet) -> (res: Vec<Action>)
        requires
            old(self).wf(),
        ensures
            final(self).wf(),
            old(self)@.is_packet_received(
                final(self)@,
                action_views(res@),
                packet@,
                old(self)@.packet_refs(packet@),
            ) || old(self)@.is_packet_received(
                final(self)@,
                action_views(res@),
                packet@,
                Seq::empty(),
            ),
    {
        let ghost none = Seq::<ActionView>::empty();
        let ghost p = packet@;
        let mut out: Vec<Action> = Vec::new();
        assert(action_views(out@) =~= none);
        let Packet { routing_header, session_id, pack_type } = packet;
        match pack_type {
            PacketType::MsgFragment(fragment) => {
                let fragment_index = fragment.fragment_index;
                if self.check_packet(&routing_header) {
                    let action = self.send_ack(fragment_index, &routing_header, session_id);
                    out.push(action);
                    proof {
                        assert(action_views(out@) =~= seq![action@]);
                    }
                    let source = routing_header.hops[0];
                    match self.message_factory.received_fragment(fragment, session_id, source) {
                        Some(message) => {
                            let more = self.handle_message(message);
                            let ghost first = action_views(out@);
                            let ghost rest = action_views(more@);
                            let mut more = more;
                            out.append(&mut more);
                            proof {
                                assert(action_views(out@) =~= first + rest);
                            }
                        },
                        None => {},
                    }
                } else {
                    let nack = Packet::new_nack(
                        routing_header.get_reversed(),
                        session_id,
                        Nack { fragment_index, nack_type: NackType::UnexpectedRecipient(self.id) },
                    );
                    match self.send_packet(nack, None) {
                        Some(action) => {
                            out.push(action);
                            proof {
                                assert(action_views(out@) =~= seq![action@]);
                            }
                        },
                        None => {},
                    }
                }
            },
            PacketType::Ack(ack) => {
                self.packet_cache.take_packet((session_id, ack.fragment_index));
            },
            PacketType::Nack(nack) => {
                let nack_src = match routing_header.source() {
                    Some(n) => n,
                    None => self.id,
                };
                out = self.handle_nack(nack, session_id, nack_src);
            },
            PacketType::FloodRequest(request) => {
                let res = self.get_flood_response(request, session_id);
                match self.send_packet(res, None) {
                    Some(action) => {
                        out.push(action);
                        proof {
                            assert(action_views(out@) =~= seq![action@]);
                        }
                    },
                    None => {},
                }
            },
            PacketType::FloodResponse(response) => {
                self.router.handle_flood_response(&response);
            },
        }
        proof {
            let parsed = old(self)@.packet_received_with(p, old(self)@.packet_refs(p));
            let plain = old(self)@.packet_received_with(p, Seq::empty());
            assert((self@ == parsed.0 && action_views(out@) =~= parsed.1) || (self@ == plain.0
                && action_views(out@) =~= plain.1));
        }
        out
    }

    /// Whether a packet with this route is at the hop it is meant for.
    fn check_packet(&self, routing_header: &RoutingHeader) -> (res: bool)
        ensures
            res == (routing_header@.current_hop() == Some(self@.id)),
    {
        match routing_header.current_hop() {
            Some(hop) => hop == self.id,
            None => false,
        }
    }

    /// The answer to a flood request: its trace with this client added, on
    /// the way back along the trace to the initiator.
    pub fn get_flood_response(&self, flood_request: FloodRequest, session_id: u64) -> (res: Packet)
        ensures
            res@ == flood_response_for(self@.id, flood_request@, session_id),
    {
        let ghost request = flood_request@;
        let FloodRequest { flood_id, initiator_id, path_trace } = flood_request;
        let mut path_trace = path_trace;
        path_trace.push((self.id, NodeKind::Client));
        let ghost trace = path_trace@;
        assert(trace == request.path_trace.push((self.id, NodeKind::Client)));
        let mut hops: Vec<NodeId> = Vec::new();
        let mut i: usize = path_trace.len();
        while i > 0
            invariant
                i <= trace.len(),
                trace == path_trace@,
                hops@.len() == trace.len() - i,
                forall|j: int| 0 <= j < hops@.len() ==> hops@[j] == trace[trace.len() - 1 - j].0,
            decreases i,
        {
            i = i - 1;
            hops.push(path_trace[i].0);
        }
        assert(hops@ =~= trace_ids(trace).reverse());
        if hops[hops.len() - 1] != initiator_id {
            hops.push(initiator_id);
        }
        assert(hops@ == response_hops(self@.id, request));
        Packet::new_flood_response(
            RoutingHeader::with_first_hop(hops),
            session_id,
            FloodResponse { flood_id, path_trace },
        )
    }

    /// The action that acknowledges a fragment to where it came from.
    fn send_ack(&self, fragment_index: u64, routing_header: &RoutingHeader, session_id: u64) -> (res:
        Action)
        ensures
            Some(res@) == crate::model::send_action(
                self@.neighbours,
                crate::packet::PacketView {
                    routing_header: routing_header@.reversed(),
                    session_id,
                    pack_type: crate::packet::PacketTypeView::Ack(
                        crate::packet::Ack { fragment_index },
                    ),
                },
                None,
            ),
    {
        let ack = Packet::new_ack(routing_header.get_reversed(), session_id, fragment_index);
        self.send_or_shortcut(ack)
    }
}

} // verus!
