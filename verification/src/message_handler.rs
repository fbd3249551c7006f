//! Turning messages into packets and packets back into messages.

use vstd::prelude::*;
use crate::assembler::{
    complete, fragment_at, fragment_count, lookup, message_output, next_state, with_session,
    Assembler, SessionKey, SessionView,
};
use crate::codec::{encodable, encode};
use crate::message::{Message, MessageContent, MessageContentView, MessageView};
use crate::packet::{
    Fragment, NodeId, NodeKind, Packet, PacketTypeView, PacketView, RoutingHeader,
    RoutingHeaderView,
};

verus! {

/// A session counter one step further; it stays at its largest value.
pub open spec fn next_session(count: u64) -> u64 {
    if count < u64::MAX {
        (count + 1) as u64
    } else {
        count
    }
}

/// The message with the given content that `source` sends to `destination`
/// in session `session_id`.
pub open spec fn message_for(
    session_id: u64,
    source: NodeId,
    destination: NodeId,
    content: MessageContentView,
) -> MessageView {
    MessageView { session_id, source_id: source, destination_id: destination, content }
}

/// Packet `i` of the message: its fragment `i` on the given route.
pub open spec fn packet_at(m: MessageView, header: RoutingHeaderView, i: int) -> PacketView {
    PacketView {
        routing_header: header,
        session_id: m.session_id,
        pack_type: PacketTypeView::MsgFragment(fragment_at(encode(m), i)),
    }
}

/// The packets of the message on the given route, in order.
pub open spec fn packets_of(m: MessageView, header: RoutingHeaderView) -> Seq<PacketView> {
    Seq::new(fragment_count(encode(m).len()), |i: int| packet_at(m, header, i))
}

/// The views of the packets, in order.
pub open spec fn packet_views(packets: Seq<Packet>) -> Seq<PacketView> {
    Seq::new(packets.len(), |i: int| packets[i]@)
}

/// Numbers the sessions of a node, cuts its messages into packets and puts
/// the fragments it receives together.
pub struct HighLevelMessageHandler {
    id: NodeId,
    node_type: NodeKind,
    assembler: Assembler,
    session_id: u64,
}

impl HighLevelMessageHandler {
    pub closed spec fn id(&self) -> NodeId {
        self.id
    }

    pub closed spec fn node_type(&self) -> NodeKind {
        self.node_type
    }

    /// The number that the next session gets.
    pub closed spec fn session_counter(&self) -> u64 {
        self.session_id
    }

    /// The sessions of which fragments have come in.
    pub closed spec fn sessions(&self) -> Map<SessionKey, SessionView> {
        self.assembler@
    }

    pub closed spec fn wf(&self) -> bool {
        self.assembler.wf()
    }

    /// An open session holds parts below its total only, and not all of them.
    pub proof fn lemma_open_sessions(&self, key: SessionKey)
        requires
            self.wf(),
            self.sessions().dom().contains(key),
        ensures
            match self.sessions()[key] {
                SessionView::Open { total, parts } => !complete(parts, total) && forall|i: u64|
                    parts.dom().contains(i) ==> i < total,
                SessionView::Done => true,
            },
    {
        self.assembler.lemma_open_sessions(key);
    }

    pub fn new(id: NodeId, node_type: NodeKind) -> (res: Self)
        ensures
            res.wf(),
            res.id() == id,
            res.node_type() == node_type,
            res.session_counter() == 0,
            res.sessions() == Map::<SessionKey, SessionView>::empty(),
    {
        HighLevelMessageHandler { id, node_type, assembler: Assembler::new(), session_id: 0 }
    }

    /// Opens a session for a message to the last hop of the route and cuts
    /// the message into packets on that route.
    pub fn get_message_from_message_content(
        &mut self,
        message_content: MessageContent,
        header: &RoutingHeader,
    ) -> (res: Vec<Packet>)
        requires
            old(self).wf(),
            header@.hops.len() > 0,
        ensures
            final(self).wf(),
            final(self).id() == old(self).id(),
            final(self).node_type() == old(self).node_type(),
            final(self).sessions() == old(self).sessions(),
            final(self).session_counter() == next_session(old(self).session_counter()),
            packet_views(res@) == packets_of(
                message_for(
                    old(self).session_counter(),
                    old(self).id(),
                    header@.hops.last(),
                    message_content@,
                ),
                header@,
            ),
            encodable(
                message_for(
                    old(self).session_counter(),
                    old(self).id(),
                    header@.hops.last(),
                    message_content@,
                ),
            ),
    {
        let session_id = self.get_session_id();
        let destination = header.hops[header.hops.len() - 1];
        let message = self.create_message(message_content, session_id, destination);
        let fragments = self.assembler.fragment_message(&message);
        let mut packets: Vec<Packet> = Vec::new();
        let mut i: usize = 0;
        while i < fragments.len()
            invariant
                i <= fragments@.len(),
                packets@.len() == i,
                forall|j: int|
                    0 <= j < i ==> (#[trigger] packets@[j])@ == packet_at(message@, header@, j),
                forall|j: int|
                    0 <= j < fragments@.len() ==> (#[trigger] fragments@[j])@ == fragment_at(
                        encode(message@),
                        j,
                    ),
                message.session_id == session_id,
            decreases fragments@.len() - i,
        {
            let packet = Packet::new_fragment(header.clone(), session_id, fragments[i].clone());
            packets.push(packet);
            i = i + 1;
        }
        assert(packet_views(packets@) =~= packets_of(message@, header@));
        packets
    }

    /// Takes a fragment in and hands out the message that it completes.
    pub fn received_fragment(&mut self, fragment: Fragment, session_id: u64, source_id: NodeId) -> (res:
        Option<Message>)
        requires
            old(self).wf(),
        ensures
            final(self).wf(),
            final(self).id() == old(self).id(),
            final(self).node_type() == old(self).node_type(),
            final(self).session_counter() == old(self).session_counter(),
            final(self).sessions() == with_session(
                old(self).sessions(),
                (session_id, source_id),
                next_state(lookup(old(self).sessions(), (session_id, source_id)), fragment@),
            ),
            match res {
                Some(m) => message_output(
                    lookup(old(self).sessions(), (session_id, source_id)),
                    fragment@,
                ) == Some(m@),
                None => message_output(
                    lookup(old(self).sessions(), (session_id, source_id)),
                    fragment@,
                ).is_none(),
            },
    {
        self.assembler.process_fragment(fragment, session_id, source_id)
    }

    fn create_message(
        &self,
        message_content: MessageContent,
        session_id: u64,
        destination_id: NodeId,
    ) -> (res: Message)
        ensures
            res@ == message_for(session_id, self.id(), destination_id, message_content@),
    {
        match message_content {
            MessageContent::FromClient(client_message) => Message::new_client_message(
                session_id,
                self.id,
                destination_id,
                client_message,
            ),
            MessageContent::FromServer(server_message) => Message::new_server_message(
                session_id,
                self.id,
                destination_id,
                server_message,
            ),
        }
    }

    /// The number of the next session; the counter moves on.
    fn get_session_id(&mut self) -> (res: u64)
        requires
            old(self).wf(),
        ensures
            final(self).wf(),
            res == old(self).session_counter(),
            final(self).session_counter() == next_session(res),
            final(self).id() == old(self).id(),
            final(self).node_type() == old(self).node_type(),
            final(self).sessions() == old(self).sessions(),
    {
        let ret = self.session_id;
        if ret < u64::MAX {
            self.session_id = ret + 1;
        }
        ret
    }
}

} // verus!
