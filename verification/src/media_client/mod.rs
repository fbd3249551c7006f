//! The client itself: one owner of the routing graph, the packet cache, the
//! message factory and the file assembler, driven by the packets and commands
//! that its caller hands to it. It never blocks and never sends: each step
//! returns the actions that the caller is to carry out.

use vstd::prelude::*;
use std::collections::HashSet;
use crate::file_assembler::FileAssembler;
use crate::message::{
    action_views, Action, ClientMessage, MessageContent, FIRST_SETTLE_MILLIS,
};
use crate::message_handler::{packet_views, HighLevelMessageHandler};
use crate::model::{
    ascending, cached_all, flood_actions, ids_below, lemma_ids_below, lemma_ids_insert,
    lemma_ids_remove, lemma_none_below, send_all, sorted_ids, with_id, without_id,
    MediaClientView,
};
use crate::packet::{NodeId, NodeKind, RoutingHeader};
use crate::packet_cache::PacketCache;
use crate::router::Router;

pub mod handle_command;
pub mod handle_message;
pub mod handle_nack;
pub mod handle_packet;
pub mod send_to;

verus! {

/// The ascending list of the identifiers in `ids`, each once.
pub open spec fn ids_of(ids: Seq<NodeId>) -> Seq<NodeId>
    decreases ids.len(),
{
    if ids.len() == 0 {
        Seq::empty()
    } else {
        with_id(ids_of(ids.drop_last()), ids.last())
    }
}

/// The identifiers of the set, by ascending identifier.
pub fn sorted_snapshot(ids: &HashSet<NodeId>) -> (res: Vec<NodeId>)
    ensures
        res@ == sorted_ids(ids@),
{
    let mut res: Vec<NodeId> = Vec::new();
    let mut i: usize = 0;
    while i < 256
        invariant
            i <= 256,
            res@ == ids_below(ids@, i as nat),
        decreases 256 - i,
    {
        if ids.contains(&(i as u8)) {
            res.push(i as u8);
        }
        i = i + 1;
    }
    res
}

/// Whether `n` is in the set.
pub fn has_id(ids: &HashSet<NodeId>, n: NodeId) -> (res: bool)
    ensures
        res == sorted_ids(ids@).contains(n),
{
    proof {
        lemma_ids_below(ids@, 256);
    }
    ids.contains(&n)
}

/// Puts `n` into the set and tells whether it was new.
pub fn insert_id(ids: &mut HashSet<NodeId>, n: NodeId) -> (res: bool)
    ensures
        sorted_ids(final(ids)@) == with_id(sorted_ids(old(ids)@), n),
        res == !sorted_ids(old(ids)@).contains(n),
{
    proof {
        lemma_ids_below(ids@, 256);
        lemma_ids_insert(ids@, n, 256);
    }
    ids.insert(n)
}

/// Takes `n` out of the set and tells whether it was there.
pub fn remove_id(ids: &mut HashSet<NodeId>, n: NodeId) -> (res: bool)
    ensures
        sorted_ids(final(ids)@) == without_id(sorted_ids(old(ids)@), n),
        res == sorted_ids(old(ids)@).contains(n),
{
    proof {
        lemma_ids_below(ids@, 256);
        lemma_ids_remove(ids@, n, 256);
    }
    ids.remove(&n)
}

pub struct MediaClient {
    id: NodeId,
    router: Router,
    message_factory: HighLevelMessageHandler,
    packet_cache: PacketCache,
    file_assembler: FileAssembler,
    media_server: HashSet<NodeId>,
    packet_send: HashSet<NodeId>,
}

impl MediaClient {
    /// The client as a value.
    pub closed spec fn view(&self) -> MediaClientView {
        MediaClientView {
            id: self.id,
            router: self.router@,
            session_counter: self.message_factory.session_counter(),
            sessions: self.message_factory.sessions(),
            cache: self.packet_cache@,
            files: self.file_assembler@,
            media_server: sorted_ids(self.media_server@),
            neighbours: sorted_ids(self.packet_send@),
        }
    }

    /// Each part is well-formed, and the parts agree on who this node is
    /// and that it is a client.
    pub closed spec fn wf(&self) -> bool {
        &&& self.router.wf()
        &&& self.router.id() == self.id
        &&& self.router.own_kind() == NodeKind::Client
        &&& self.message_factory.wf()
        &&& self.message_factory.id() == self.id
        &&& self.message_factory.node_type() == NodeKind::Client
        &&& self.packet_cache.wf()
        &&& self.file_assembler.wf()
    }

    /// What well-formedness says of the view.
    pub proof fn lemma_wf(&self)
        requires
            self.wf(),
        ensures
            self@.router.wf(),
            self@.router.id == self@.id,
            self@.router.own_kind == NodeKind::Client,
            ascending(self@.media_server),
            ascending(self@.neighbours),
            forall|key: crate::packet_cache::Key| #[trigger]
                self@.cache.dom().contains(key) ==> crate::packet_cache::is_fragment_of(
                    self@.cache[key].0,
                    key,
                ),
    {
        lemma_ids_below(self.media_server@, 256);
        lemma_ids_below(self.packet_send@, 256);
        assert forall|key: crate::packet_cache::Key| #[trigger]
            self@.cache.dom().contains(key) implies crate::packet_cache::is_fragment_of(
            self@.cache[key].0,
            key,
        ) by {
            self.packet_cache.lemma_entries_are_fragments(key);
        }
    }

    /// A client that knows no node but itself, with a link to each node of
    /// `packet_send`.
    pub fn new(id: NodeId, packet_send: Vec<NodeId>) -> (res: Self)
        ensures
            res.wf(),
            res@.id == id,
            res@.router == crate::router::blank(id, NodeKind::Client),
            res@.session_counter == 0,
            res@.sessions == Map::<crate::assembler::SessionKey, crate::assembler::SessionView>::empty(),
            res@.cache == Map::<crate::packet_cache::Key, (crate::packet::PacketView, u64)>::empty(),
            res@.files.texts.len() == 0,
            res@.files.media == Map::<Seq<char>, Seq<char>>::empty(),
            res@.media_server == Seq::<NodeId>::empty(),
            res@.neighbours == ids_of(packet_send@),
    {
        let mut links: HashSet<NodeId> = HashSet::new();
        let mut i: usize = 0;
        assert(packet_send@.take(0) =~= Seq::<NodeId>::empty());
        proof {
            lemma_none_below(256);
        }
        while i < packet_send.len()
            invariant
                i <= packet_send@.len(),
                sorted_ids(links@) == ids_of(packet_send@.take(i as int)),
            decreases packet_send@.len() - i,
        {
            proof {
                assert(packet_send@.take(i + 1).drop_last() =~= packet_send@.take(i as int));
            }
            insert_id(&mut links, packet_send[i]);
            i = i + 1;
        }
        assert(packet_send@.take(packet_send@.len() as int) =~= packet_send@);
        MediaClient {
            id,
            router: Router::new(id, NodeKind::Client),
            message_factory: HighLevelMessageHandler::new(id, NodeKind::Client),
            packet_cache: PacketCache::new(),
            file_assembler: FileAssembler::new(),
            media_server: HashSet::new(),
            packet_send: links,
        }
    }

    /// This client's identifier.
    pub fn get_id(&self) -> (res: NodeId)
        ensures
            res == self@.id,
    {
        self.id
    }

    /// The number of fragments that were sent and are not acknowledged.
    pub fn in_flight(&self) -> (res: usize)
        requires
            self.wf(),
        ensures
            res == self@.cache.dom().len(),
    {
        self.packet_cache.len()
    }

    /// The servers known to hold media, by ascending identifier.
    pub fn media_servers(&self) -> (res: Vec<NodeId>)
        ensures
            res@ == self@.media_server,
    {
        sorted_snapshot(&self.media_server)
    }

    /// The nodes this client has a link to, by ascending identifier.
    pub fn neighbours(&self) -> (res: Vec<NodeId>)
        ensures
            res@ == self@.neighbours,
    {
        sorted_snapshot(&self.packet_send)
    }

    /// Floods the network: a new flood request on the link to each
    /// neighbour, then a pause of `millis` milliseconds for the answers.
    pub(crate) fn flood_network(&mut self, millis: u64, out: &mut Vec<Action>)
        requires
            old(self).wf(),
        ensures
            final(self).wf(),
            final(self)@ == old(self)@.flooded(millis).0,
            action_views(final(out)@) == action_views(old(out)@) + old(self)@.flooded(millis).1,
    {
        let to = sorted_snapshot(&self.packet_send);
        let requests = self.router.get_flood_requests(to.len());
        let ghost request = old(self)@.router.flood_request();
        let ghost start = action_views(out@);
        let ghost links = to@;
        let mut i: usize = 0;
        while i < to.len()
            invariant
                i <= links.len(),
                links == to@,
                links == old(self)@.neighbours,
                self.wf(),
                self@ == old(self)@.flooded(millis).0,
                requests@.len() == links.len(),
                forall|j: int| 0 <= j < requests@.len() ==> (#[trigger] requests@[j])@ == request,
                action_views(out@) == start + Seq::new(
                    i as nat,
                    |j: int|
                        crate::message::ActionView::Send { neighbour: links[j], packet: request },
                ),
            decreases links.len() - i,
        {
            let ghost before = action_views(out@);
            let action = self.send_to_sender(requests[i].clone(), to[i]);
            out.push(action);
            proof {
                assert(action_views(out@) =~= before.push(action@));
                assert(action_views(out@) =~= start + Seq::new(
                    (i + 1) as nat,
                    |j: int|
                        crate::message::ActionView::Send { neighbour: links[j], packet: request },
                ));
            }
            i = i + 1;
        }
        let ghost before = action_views(out@);
        out.push(Action::Settle { millis });
        proof {
            assert(action_views(out@) =~= before.push(
                crate::message::ActionView::Settle { millis },
            ));
            assert(action_views(out@) =~= start + flood_actions(links, request, millis));
        }
    }

    /// The first step of a client: it floods the network and gives the
    /// answers the longer time to come in.
    pub fn start(&mut self) -> (res: Vec<Action>)
        requires
            old(self).wf(),
        ensures
            final(self).wf(),
            final(self)@ == old(self)@.flooded(FIRST_SETTLE_MILLIS).0,
            action_views(res@) == old(self)@.flooded(FIRST_SETTLE_MILLIS).1,
    {
        let mut out: Vec<Action> = Vec::new();
        assert(action_views(out@) =~= Seq::empty());
        self.flood_network(FIRST_SETTLE_MILLIS, &mut out);
        assert(Seq::<crate::message::ActionView>::empty() + old(self)@.flooded(
            FIRST_SETTLE_MILLIS,
        ).1 =~= old(self)@.flooded(FIRST_SETTLE_MILLIS).1);
        out
    }

    /// Sends `content` on the route of `header`: opens a session, cuts the
    /// message into packets, stores each packet and sends it.
    pub(crate) fn dispatch(&mut self, content: ClientMessage, header: &RoutingHeader, out: &mut Vec<Action>)
        requires
            old(self).wf(),
            header@.hops.len() > 0,
        ensures
            final(self).wf(),
            final(self)@ == old(self)@.dispatched(content@, header@).0,
            action_views(final(out)@) == action_views(old(out)@) + old(self)@.dispatched(
                content@,
                header@,
            ).1,
    {
        let packets = self.message_factory.get_message_from_message_content(
            MessageContent::FromClient(content),
            header,
        );
        let ghost views = packet_views(packets@);
        let ghost start = action_views(out@);
        let ghost cache = old(self)@.cache;
        let ghost links = self@.neighbours;
        let mut i: usize = 0;
        proof {
            assert(views.take(0) =~= Seq::<crate::packet::PacketView>::empty());
            assert(start + send_all(links, views.take(0)) =~= start);
        }
        while i < packets.len()
            invariant
                i <= packets@.len(),
                views == packet_views(packets@),
                links == old(self)@.neighbours,
                self.wf(),
                self@ == (MediaClientView {
                    session_counter: old(self)@.dispatched(content@, header@).0.session_counter,
                    cache: cached_all(cache, views.take(i as int)),
                    ..old(self)@
                }),
                action_views(out@) == start + send_all(links, views.take(i as int)),
            decreases packets@.len() - i,
        {
            let ghost before = action_views(out@);
            proof {
                assert(views.take(i + 1).drop_last() =~= views.take(i as int));
                assert(views.take(i + 1).last() == packets@[i as int]@);
            }
            self.packet_cache.insert_packet(&packets[i]);
            let packet = packets[i].clone();
            match self.send_packet(packet, None) {
                Some(action) => {
                    out.push(action);
                    proof {
                        assert(action_views(out@) =~= before.push(action@));
                    }
                },
                None => {},
            }
            proof {
                assert(action_views(out@) =~= start + send_all(links, views.take(i + 1)));
            }
            i = i + 1;
        }
        proof {
            assert(views.take(views.len() as int) =~= views);
        }
    }
}

} // verus!
