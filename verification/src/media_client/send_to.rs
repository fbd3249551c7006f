//! The way out: which link a packet leaves on, and what happens where the
//! link is gone.

use vstd::prelude::*;
use crate::media_client::{has_id, MediaClient};
use crate::message::{Action, ActionView, MediaClientEvent, MediaClientEventView};
use crate::model::{failure_event, send_action};
use crate::packet::{NodeId, Packet, PacketType};

verus! {

impl MediaClient {
    /// The action that tells the controller of the event.
    pub fn send_controller(&self, msg: MediaClientEvent) -> (res: Action)
        ensures
            res@ == ActionView::Notify(msg@),
    {
        Action::Notify(msg)
    }

    /// What is to be done with a packet that is to leave.
    ///
    /// `sender` is the neighbour that a flood request is meant for; for any
    /// other packet it is ignored.
    pub fn send_packet(&self, msg: Packet, sender: Option<NodeId>) -> (res: Option<Action>)
        ensures
            match res {
                Some(action) => send_action(self@.neighbours, msg@, sender) == Some(action@),
                None => send_action(self@.neighbours, msg@, sender).is_none(),
            },
    {
        match msg.pack_type {
            PacketType::Ack(_) | PacketType::Nack(_) | PacketType::FloodResponse(_) => Some(
                self.send_or_shortcut(msg),
            ),
            PacketType::FloodRequest(_) => {
                match sender {
                    Some(sender) => Some(self.send_to_sender(msg, sender)),
                    None => None,
                }
            },
            PacketType::MsgFragment(_) => {
                match msg.routing_header.current_hop() {
                    Some(dest) => Some(self.send_to_neighbour_id(msg, dest)),
                    None => None,
                }
            },
        }
    }

    /// What the controller is to hear when the link refused the packet.
    pub fn send_failed(&self, msg: Packet) -> (res: Action)
        ensures
            res@ == ActionView::Notify(failure_event(msg@)),
    {
        match msg.pack_type {
            PacketType::Ack(_) | PacketType::Nack(_) | PacketType::FloodResponse(
                _,
            ) => Action::Notify(MediaClientEvent::ControllerShortcut(msg)),
            _ => Action::Notify(MediaClientEvent::SendError(msg)),
        }
    }

    pub(crate) fn send_to_sender(&self, msg: Packet, sender: NodeId) -> (res: Action)
        ensures
            res@ == (ActionView::Send { neighbour: sender, packet: msg@ }),
    {
        Action::Send { neighbour: sender, packet: msg }
    }

    fn send_to_neighbour_id(&self, msg: Packet, neighbour_id: NodeId) -> (res: Action)
        ensures
            res@ == if self@.neighbours.contains(neighbour_id) {
                ActionView::Send { neighbour: neighbour_id, packet: msg@ }
            } else {
                ActionView::Notify(MediaClientEventView::UnreachableNode(neighbour_id))
            },
    {
        if has_id(&self.packet_send, neighbour_id) {
            self.send_to_sender(msg, neighbour_id)
        } else {
            self.send_controller(MediaClientEvent::UnreachableNode(neighbour_id))
        }
    }

    /// For an ack, a nack or a flood response: to the next hop where there is
    /// a link to it, else to the controller.
    pub(crate) fn send_or_shortcut(&self, msg: Packet) -> (res: Action)
        ensures
            res@ == match msg@.routing_header.current_hop() {
                Some(hop) => if self@.neighbours.contains(hop) {
                    ActionView::Send { neighbour: hop, packet: msg@ }
                } else {
                    ActionView::Notify(MediaClientEventView::ControllerShortcut(msg@))
                },
                None => ActionView::Notify(MediaClientEventView::ControllerShortcut(msg@)),
            },
    {
        match self.get_sender(&msg) {
            Some(sender) => self.send_to_sender(msg, sender),
            None => self.send_controller(MediaClientEvent::ControllerShortcut(msg)),
        }
    }

    /// The neighbour that is the packet's next hop, if it is one.
    fn get_sender(&self, packet: &Packet) -> (res: Option<NodeId>)
        ensures
            res == match packet@.routing_header.current_hop() {
                Some(hop) => if self@.neighbours.contains(hop) {
                    Some(hop)
                } else {
                    None
                },
                None => None,
            },
    {
        match packet.routing_header.current_hop() {
            Some(hop) => if has_id(&self.packet_send, hop) {
                Some(hop)
            } else {
                None
            },
            None => None,
        }
    }
}

} // verus!
