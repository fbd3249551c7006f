//! The client as a value, and what each of its steps does to that value:
//! the state after the step and the actions it asks for.

use vstd::prelude::*;
use crate::assembler::{
    lookup, message_output, next_state, with_session, SessionKey, SessionView,
};
use crate::file_assembler::{
    bundle_media, extracted_refs, first_satisfied, put_text, without_refs, FileAssemblerView,
    PendingTextView,
};
use crate::message::{
    ActionView, ClientMessage, ClientMessageView, MediaClientCommandView, MediaClientEventView,
    MessageContentView, MessageView, ServerMessageView, ServerType, FLOOD_SETTLE_MILLIS,
};
use crate::message_handler::{message_for, next_session, packets_of};
use crate::packet::{
    trace_ids, Ack, FloodRequestView, FloodResponseView, Nack, NackType, NodeId, NodeKind,
    PacketTypeView, PacketView, RoutingHeaderView,
};
use crate::packet_cache::{bumped, Key};
use crate::route::header_of;
use crate::router::RouterView;

verus! {

pub struct MediaClientView {
    pub id: NodeId,
    pub router: RouterView,
    /// The number that the next session gets.
    pub session_counter: u64,
    /// The sessions of which fragments have come in.
    pub sessions: Map<SessionKey, SessionView>,
    /// The fragments that were sent and are not acknowledged.
    pub cache: Map<Key, (PacketView, u64)>,
    pub files: FileAssemblerView,
    /// The servers known to hold media, by ascending identifier.
    pub media_server: Seq<NodeId>,
    /// The nodes this client has a link to, by ascending identifier.
    pub neighbours: Seq<NodeId>,
}

/// No entry of the list is less than the one before it, and none is equal.
pub open spec fn ascending(ids: Seq<NodeId>) -> bool {
    forall|i: int, j: int| 0 <= i < j < ids.len() ==> ids[i] < ids[j]
}

/// The ascending list with `n` put in at its place, unless it is there.
pub open spec fn with_id(ids: Seq<NodeId>, n: NodeId) -> Seq<NodeId>
    decreases ids.len(),
{
    if ids.len() == 0 {
        seq![n]
    } else if ids.last() < n {
        ids.push(n)
    } else if ids.last() == n {
        ids
    } else {
        with_id(ids.drop_last(), n).push(ids.last())
    }
}

/// The ascending list without `n`.
pub open spec fn without_id(ids: Seq<NodeId>, n: NodeId) -> Seq<NodeId>
    decreases ids.len(),
{
    if ids.len() == 0 {
        ids
    } else if ids.last() == n {
        ids.drop_last()
    } else {
        without_id(ids.drop_last(), n).push(ids.last())
    }
}

/// The identifiers of the set that are below `k`, in ascending order.
pub open spec fn ids_below(set: Set<NodeId>, k: nat) -> Seq<NodeId>
    decreases k,
{
    if k == 0 {
        Seq::empty()
    } else if set.contains((k - 1) as u8) {
        ids_below(set, (k - 1) as nat).push((k - 1) as u8)
    } else {
        ids_below(set, (k - 1) as nat)
    }
}

/// The identifiers of the set in ascending order.
pub open spec fn sorted_ids(set: Set<NodeId>) -> Seq<NodeId> {
    ids_below(set, 256)
}

/// The ascending list of a set holds what the set holds, each once.
pub proof fn lemma_ids_below(set: Set<NodeId>, k: nat)
    requires
        k <= 256,
    ensures
        ascending(ids_below(set, k)),
        forall|n: NodeId|
            (#[trigger] ids_below(set, k).contains(n)) <==> (set.contains(n) && (n as int) < k),
    decreases k,
{
    let out = ids_below(set, k);
    if k > 0 {
        let init = ids_below(set, (k - 1) as nat);
        lemma_ids_below(set, (k - 1) as nat);
        let top = (k - 1) as u8;
        if set.contains(top) {
            assert(out == init.push(top));
            assert forall|i: int, j: int| 0 <= i < j < out.len() implies out[i] < out[j] by {
                assert(out[i] == init[i]);
                if j < init.len() {
                    assert(out[j] == init[j]);
                    assert(init[i] < init[j]);
                } else {
                    assert(out[j] == top);
                    let m = init[i];
                    assert(init.contains(m));
                    assert(set.contains(m) && (m as int) < k - 1);
                }
            }
            assert forall|n: NodeId| out.contains(n) <==> (set.contains(n) && (n as int) < k) by {
                if out.contains(n) {
                    let i = choose|i: int| 0 <= i < out.len() && out[i] == n;
                    if i < init.len() {
                        assert(init.contains(init[i]));
                    }
                }
                if set.contains(n) && (n as int) < k {
                    if n == top {
                        assert(out[init.len() as int] == n);
                    } else {
                        assert(init.contains(n));
                        let i = choose|i: int| 0 <= i < init.len() && init[i] == n;
                        assert(out[i] == n);
                    }
                }
            }
        }
    }
}

/// The empty set has no identifiers.
pub proof fn lemma_none_below(k: nat)
    ensures
        ids_below(Set::<NodeId>::empty(), k) == Seq::<NodeId>::empty(),
    decreases k,
{
    if k > 0 {
        lemma_none_below((k - 1) as nat);
    }
}

/// Taking out of an ascending list what is not in it changes nothing.
proof fn lemma_without_absent(ids: Seq<NodeId>, n: NodeId)
    requires
        !ids.contains(n),
    ensures
        without_id(ids, n) == ids,
    decreases ids.len(),
{
    if ids.len() > 0 {
        assert(ids[ids.len() - 1] != n);
        let init = ids.drop_last();
        assert(!init.contains(n)) by {
            if init.contains(n) {
                let i = choose|i: int| 0 <= i < init.len() && init[i] == n;
                assert(ids[i] == n);
            }
        }
        lemma_without_absent(init, n);
        assert(init.push(ids.last()) =~= ids);
    }
}

/// Putting an identifier into the set puts it into its ascending list.
pub proof fn lemma_ids_insert(set: Set<NodeId>, n: NodeId, k: nat)
    requires
        k <= 256,
    ensures
        ids_below(set.insert(n), k) == if (n as int) < k {
            with_id(ids_below(set, k), n)
        } else {
            ids_below(set, k)
        },
    decreases k,
{
    if k > 0 {
        let more = set.insert(n);
        let top = (k - 1) as u8;
        let init = ids_below(set, (k - 1) as nat);
        let init_more = ids_below(more, (k - 1) as nat);
        lemma_ids_insert(set, n, (k - 1) as nat);
        lemma_ids_below(set, (k - 1) as nat);
        if top == n {
            assert(init_more == init);
            assert(ids_below(more, k) == init.push(n));
            if set.contains(n) {
                let whole = init.push(n);
                assert(ids_below(set, k) == whole);
                assert(whole.last() == n);
                assert(with_id(whole, n) == whole);
            } else {
                assert(ids_below(set, k) == init);
                if init.len() == 0 {
                    assert(seq![n] =~= init.push(n));
                } else {
                    let m = init.last();
                    assert(init.contains(m));
                    assert(set.contains(m) && (m as int) < k - 1);
                    assert(with_id(init, n) == init.push(n));
                }
            }
        } else if (n as int) < k {
            assert(init_more == with_id(init, n));
            assert(more.contains(top) == set.contains(top));
            if set.contains(top) {
                let whole = init.push(top);
                assert(ids_below(set, k) == whole);
                assert(whole.drop_last() =~= init);
                assert(whole.last() == top);
                assert(with_id(whole, n) == with_id(init, n).push(top));
                assert(ids_below(more, k) == init_more.push(top));
            } else {
                assert(ids_below(more, k) == init_more);
                assert(ids_below(set, k) == init);
            }
        } else {
            assert(init_more == init);
            assert(more.contains(top) == set.contains(top));
        }
    }
}

/// Taking an identifier out of the set takes it out of its ascending list.
pub proof fn lemma_ids_remove(set: Set<NodeId>, n: NodeId, k: nat)
    requires
        k <= 256,
    ensures
        ids_below(set.remove(n), k) == if (n as int) < k {
            without_id(ids_below(set, k), n)
        } else {
            ids_below(set, k)
        },
    decreases k,
{
    if k > 0 {
        let less = set.remove(n);
        let top = (k - 1) as u8;
        let init = ids_below(set, (k - 1) as nat);
        let init_less = ids_below(less, (k - 1) as nat);
        lemma_ids_remove(set, n, (k - 1) as nat);
        lemma_ids_below(set, (k - 1) as nat);
        if top == n {
            assert(init_less == init);
            assert(ids_below(less, k) == init);
            if set.contains(n) {
                let whole = init.push(n);
                assert(ids_below(set, k) == whole);
                assert(whole.last() == n);
                assert(whole.drop_last() =~= init);
                assert(without_id(whole, n) == init);
            } else {
                assert(ids_below(set, k) == init);
                assert(!init.contains(n));
                lemma_without_absent(init, n);
            }
        } else if (n as int) < k {
            assert(init_less == without_id(init, n));
            assert(less.contains(top) == set.contains(top));
            if set.contains(top) {
                let whole = init.push(top);
                assert(ids_below(set, k) == whole);
                assert(whole.drop_last() =~= init);
                assert(whole.last() == top);
                assert(without_id(whole, n) == without_id(init, n).push(top));
                assert(ids_below(less, k) == init_less.push(top));
            } else {
                assert(ids_below(less, k) == init_less);
                assert(ids_below(set, k) == init);
            }
        } else {
            assert(init_less == init);
            assert(less.contains(top) == set.contains(top));
        }
    }
}

/// What is to be done with a packet that is to leave: a fragment goes to the
/// next hop if there is a link to it, else the controller hears that the hop
/// cannot be reached; a flood request goes on the link it was made for; an
/// ack, a nack or a flood response goes to the next hop if there is a link to
/// it, else to the controller.
pub open spec fn send_action(
    neighbours: Seq<NodeId>,
    packet: PacketView,
    sender: Option<NodeId>,
) -> Option<ActionView> {
    match packet.pack_type {
        PacketTypeView::MsgFragment(_) => match packet.routing_header.current_hop() {
            Some(hop) => if neighbours.contains(hop) {
                Some(ActionView::Send { neighbour: hop, packet })
            } else {
                Some(ActionView::Notify(MediaClientEventView::UnreachableNode(hop)))
            },
            None => None,
        },
        PacketTypeView::FloodRequest(_) => match sender {
            Some(n) => Some(ActionView::Send { neighbour: n, packet }),
            None => None,
        },
        _ => match packet.routing_header.current_hop() {
            Some(hop) => if neighbours.contains(hop) {
                Some(ActionView::Send { neighbour: hop, packet })
            } else {
                Some(ActionView::Notify(MediaClientEventView::ControllerShortcut(packet)))
            },
            None => Some(ActionView::Notify(MediaClientEventView::ControllerShortcut(packet))),
        },
    }
}

/// What the controller hears when a link refuses a packet.
pub open spec fn failure_event(packet: PacketView) -> MediaClientEventView {
    if packet.may_shortcut() {
        MediaClientEventView::ControllerShortcut(packet)
    } else {
        MediaClientEventView::SendError(packet)
    }
}

/// The actions with one more, if there is one.
pub open spec fn appended(actions: Seq<ActionView>, more: Option<ActionView>) -> Seq<ActionView> {
    match more {
        Some(a) => actions.push(a),
        None => actions,
    }
}

/// What is to be done with each of the packets, in order.
pub open spec fn send_all(neighbours: Seq<NodeId>, packets: Seq<PacketView>) -> Seq<ActionView>
    decreases packets.len(),
{
    if packets.len() == 0 {
        Seq::empty()
    } else {
        appended(
            send_all(neighbours, packets.drop_last()),
            send_action(neighbours, packets.last(), None),
        )
    }
}

/// The cache with the packet stored, if it carries a fragment.
pub open spec fn cached(cache: Map<Key, (PacketView, u64)>, packet: PacketView) -> Map<
    Key,
    (PacketView, u64),
> {
    match packet.pack_type {
        PacketTypeView::MsgFragment(f) => cache.insert(
            (packet.session_id, f.fragment_index),
            (packet, 0u64),
        ),
        _ => cache,
    }
}

/// The cache with each of the packets stored, in order.
pub open spec fn cached_all(cache: Map<Key, (PacketView, u64)>, packets: Seq<PacketView>) -> Map<
    Key,
    (PacketView, u64),
>
    decreases packets.len(),
{
    if packets.len() == 0 {
        cache
    } else {
        cached(cached_all(cache, packets.drop_last()), packets.last())
    }
}

/// A flood: the request on the link to each neighbour, then a pause of
/// `millis` milliseconds for the answers.
pub open spec fn flood_actions(neighbours: Seq<NodeId>, request: PacketView, millis: u64) -> Seq<
    ActionView,
> {
    Seq::new(
        neighbours.len(),
        |i: int| ActionView::Send { neighbour: neighbours[i], packet: request },
    ).push(ActionView::Settle { millis })
}

/// The hops of the answer to a flood request: the nodes of its trace and this
/// one, from last to first, and then the initiator unless it is there already.
pub open spec fn response_hops(me: NodeId, request: FloodRequestView) -> Seq<NodeId> {
    let back = trace_ids(request.path_trace.push((me, NodeKind::Client))).reverse();
    if back.last() == request.initiator_id {
        back
    } else {
        back.push(request.initiator_id)
    }
}

/// The answer of client `me` to a flood request that came in session
/// `session_id`.
pub open spec fn flood_response_for(me: NodeId, request: FloodRequestView, session_id: u64) -> PacketView {
    PacketView {
        routing_header: RoutingHeaderView { hop_index: 1, hops: response_hops(me, request) },
        session_id,
        pack_type: PacketTypeView::FloodResponse(
            FloodResponseView {
                flood_id: request.flood_id,
                path_trace: request.path_trace.push((me, NodeKind::Client)),
            },
        ),
    }
}

/// A request for its type to each server of the graph.
pub open spec fn probe_items(router: RouterView) -> Seq<(NodeId, ClientMessageView)> {
    Seq::new(
        router.server_list().len(),
        |i: int| (router.server_list()[i], ClientMessageView::GetServerType),
    )
}

/// The media server that request `k` goes to: each in turn; node 0 where
/// none is known.
pub open spec fn round_robin(media_server: Seq<NodeId>, k: int) -> NodeId {
    if media_server.len() == 0 {
        0
    } else {
        media_server[k % (media_server.len() as int)]
    }
}

/// A request for each of the media, to the media servers in turn.
pub open spec fn fetch_items(media_server: Seq<NodeId>, refs: Seq<Seq<char>>) -> Seq<
    (NodeId, ClientMessageView),
> {
    Seq::new(
        refs.len(),
        |k: int| (round_robin(media_server, k), ClientMessageView::GetMedia(refs[k])),
    )
}

/// The node that a nack is laid to: the one it names, or the one it came from.
pub open spec fn blamed(nack_type: NackType, nack_src: NodeId) -> NodeId {
    match nack_type {
        NackType::ErrorInRouting(n) => n,
        NackType::UnexpectedRecipient(n) => n,
        _ => nack_src,
    }
}

/// The graph after what the nack itself tells was taken in: a node that was
/// named as the place of a routing error is taken out, the links of a node
/// that dropped a fragment count one more drop.
pub open spec fn noted(router: RouterView, nack_type: NackType, nack_src: NodeId) -> RouterView {
    match nack_type {
        NackType::ErrorInRouting(n) => if router.can_crash(n) {
            router.crashed(n)
        } else {
            router
        },
        NackType::Dropped => router.dropped(nack_src),
        _ => router,
    }
}

/// The graph after the measures that the number of requests for a fragment
/// calls for: above 5 a new flood; above 10 the blamed node is taken out
/// first, or the whole graph forgotten where that node is not in it.
pub open spec fn escalated(router: RouterView, blamed: NodeId, retry: u64) -> RouterView {
    if retry > 10 {
        if router.can_crash(blamed) {
            router.crashed(blamed).counted()
        } else {
            router.cleared().counted()
        }
    } else if retry > 5 {
        router.counted()
    } else {
        router
    }
}

/// The actions of those measures: above 5 requests, a flood.
pub open spec fn escalation_actions(neighbours: Seq<NodeId>, router: RouterView, retry: u64) -> Seq<
    ActionView,
> {
    if retry > 5 {
        flood_actions(neighbours, router.flood_request(), FLOOD_SETTLE_MILLIS)
    } else {
        Seq::empty()
    }
}

/// Sending a fragment again: on the new route where there is one; else the
/// controller hears that the destination cannot be reached, and the fragment
/// leaves on its old route.
pub open spec fn resend_actions(
    neighbours: Seq<NodeId>,
    packet: PacketView,
    dest: NodeId,
    route: Option<Seq<NodeId>>,
) -> Seq<ActionView> {
    match route {
        Some(hops) => appended(
            Seq::empty(),
            send_action(neighbours, packet.rerouted(header_of(hops)), None),
        ),
        None => appended(
            seq![ActionView::Notify(MediaClientEventView::UnreachableNode(dest))],
            send_action(neighbours, packet, None),
        ),
    }
}

/// Escalation by the number of requests for one fragment: up to 5 nothing is
/// done but sending again; above 5 the network is flooded, once; above 10 the
/// blamed node and its links are gone from the graph before the flood, or,
/// where that node is not in the graph or is this node, every link is.
pub proof fn lemma_escalation(
    neighbours: Seq<NodeId>,
    router: RouterView,
    who: NodeId,
    retry: u64,
)
    requires
        router.wf(),
    ensures
        retry <= 5 ==> escalated(router, who, retry) == router && escalation_actions(
            neighbours,
            router,
            retry,
        ).len() == 0,
        retry > 5 ==> escalation_actions(neighbours, router, retry) == flood_actions(
            neighbours,
            router.flood_request(),
            FLOOD_SETTLE_MILLIS,
        ) && escalation_actions(neighbours, router, retry).last() == (ActionView::Settle {
            millis: FLOOD_SETTLE_MILLIS,
        })
            && escalated(router, who, retry).flood_counter == crate::router::next_flood(
            router.flood_counter,
        ),
        retry > 10 && router.can_crash(who) ==> escalated(router, who, retry)
            == router.crashed(who).counted() && escalated(router, who, retry).kind_of(who).is_none()
            && forall|n: NodeId| !#[trigger] escalated(router, who, retry).linked(who, n),
        retry > 10 && !router.can_crash(who) ==> escalated(router, who, retry)
            == router.cleared().counted() && forall|a: NodeId, b: NodeId|
            !#[trigger] escalated(router, who, retry).linked(a, b),
{
    if retry > 10 {
        let after = escalated(router, who, retry);
        if router.can_crash(who) {
            assert forall|n: NodeId| !#[trigger] after.linked(who, n) by {
                assert(crate::router::slot(who, n) / 256 == who as int);
            }
        } else {
            assert forall|a: NodeId, b: NodeId| !#[trigger] after.linked(a, b) by {
                assert(0 <= crate::router::slot(a, b) < 65536);
            }
        }
    }
}

impl MediaClientView {
    /// The client after a flood, and the actions of the flood.
    pub open spec fn flooded(self, millis: u64) -> (MediaClientView, Seq<ActionView>) {
        (
            MediaClientView { router: self.router.counted(), ..self },
            flood_actions(self.neighbours, self.router.flood_request(), millis),
        )
    }

    /// The client after a fragment was asked for again, and the actions that
    /// follow: the request is counted, the measures that the count calls for
    /// are taken, and the fragment is sent again, on the route that the router
    /// then takes to its destination where there is one. A fragment that is
    /// not in the cache is reported to the controller.
    pub open spec fn resent(self, session_id: u64, fragment_index: u64, who: NodeId) -> (
        MediaClientView,
        Seq<ActionView>,
    ) {
        let key = (session_id, fragment_index);
        if !self.cache.dom().contains(key) {
            (
                self,
                seq![
                    ActionView::Notify(
                        MediaClientEventView::ErrorPacketCache(session_id, fragment_index),
                    ),
                ],
            )
        } else {
            let packet = self.cache[key].0;
            let retry = bumped(self.cache[key].1);
            let router = escalated(self.router, who, retry);
            let after = MediaClientView {
                router,
                cache: self.cache.insert(key, (packet, retry)),
                ..self
            };
            let flood = escalation_actions(self.neighbours, self.router, retry);
            match packet.routing_header.destination() {
                Some(dest) => (
                    after,
                    flood + resend_actions(self.neighbours, packet, dest, router.route_to(dest)),
                ),
                None => (after, flood),
            }
        }
    }

    /// The client after a nack, and the actions that follow. A nack that says
    /// that the destination is a drone is reported and nothing more. A nack
    /// for a fragment that is not in the cache is reported and changes
    /// nothing. Any other is taken note of in the graph, and the fragment is
    /// sent again.
    pub open spec fn nacked(self, nack: Nack, session_id: u64, nack_src: NodeId) -> (
        MediaClientView,
        Seq<ActionView>,
    ) {
        if nack.nack_type is DestinationIsDrone {
            (self, seq![ActionView::Notify(MediaClientEventView::DestinationIsDrone)])
        } else if !self.cache.dom().contains((session_id, nack.fragment_index)) {
            (
                self,
                seq![
                    ActionView::Notify(
                        MediaClientEventView::ErrorPacketCache(session_id, nack.fragment_index),
                    ),
                ],
            )
        } else {
            (MediaClientView {
                router: noted(self.router, nack.nack_type, nack_src),
                ..self
            }).resent(session_id, nack.fragment_index, blamed(nack.nack_type, nack_src))
        }
    }

    /// The client after it sent `content` on the route of `header`, and the
    /// actions that send it: a new session is opened, the message is cut into
    /// packets, each packet is stored and sent.
    pub open spec fn dispatched(self, content: ClientMessageView, header: RoutingHeaderView) -> (
        MediaClientView,
        Seq<ActionView>,
    ) {
        let packets = packets_of(
            message_for(
                self.session_counter,
                self.id,
                header.hops.last(),
                MessageContentView::FromClient(content),
            ),
            header,
        );
        (
            MediaClientView {
                session_counter: next_session(self.session_counter),
                cache: cached_all(self.cache, packets),
                ..self
            },
            send_all(self.neighbours, packets),
        )
    }

    /// The client after it sent each item on the route to its destination,
    /// in order, and the actions that send them. An item whose destination
    /// cannot be reached is passed over.
    pub open spec fn dispatched_many(self, items: Seq<(NodeId, ClientMessageView)>) -> (
        MediaClientView,
        Seq<ActionView>,
    )
        decreases items.len(),
    {
        if items.len() == 0 {
            (self, Seq::empty())
        } else {
            let before = self.dispatched_many(items.drop_last());
            match self.router.route_to(items.last().0) {
                Some(hops) => {
                    let last = before.0.dispatched(items.last().1, header_of(hops));
                    (last.0, before.1 + last.1)
                },
                None => before,
            }
        }
    }
}

/// After an ack the cache holds nothing under the key of the acknowledged
/// fragment, and every other entry is as it was.
pub proof fn lemma_ack_evicts(client: MediaClientView, packet: PacketView, refs: Seq<Seq<char>>)
    requires
        packet.pack_type is Ack,
    ensures
        !client.packet_received_with(packet, refs).0.cache.dom().contains(
            (packet.session_id, packet.fragment_index()),
        ),
        forall|k: Key|
            k != (packet.session_id, packet.fragment_index()) ==> lookup(
                client.packet_received_with(packet, refs).0.cache,
                k,
            ) == lookup(client.cache, k),
        client.packet_received_with(packet, refs).1.len() == 0,
{
}

/// Sending requests changes nothing but the session counter, which does not
/// go down, and the cache.
pub proof fn lemma_dispatch_keeps(client: MediaClientView, items: Seq<(NodeId, ClientMessageView)>)
    ensures
        client.dispatched_many(items).0 == (MediaClientView {
            session_counter: client.dispatched_many(items).0.session_counter,
            cache: client.dispatched_many(items).0.cache,
            ..client
        }),
        client.dispatched_many(items).0.session_counter >= client.session_counter,
    decreases items.len(),
{
    if items.len() > 0 {
        lemma_dispatch_keeps(client, items.drop_last());
    }
}

/// A server is taken for a media server only when it said that it is one.
pub proof fn lemma_media_servers_by_reply(
    client: MediaClientView,
    m: MessageView,
    refs: Seq<Seq<char>>,
)
    ensures
        client.received_with(m, refs).0.media_server == if m.content
            == MessageContentView::FromServer(
            ServerMessageView::ServerType(ServerType::Media),
        ) {
            with_id(client.media_server, m.source_id)
        } else {
            client.media_server
        },
{
    match m.content {
        MessageContentView::FromServer(ServerMessageView::FilesList(_)) => {
            lemma_dispatch_keeps(client, probe_items(client.router));
        },
        MessageContentView::FromServer(ServerMessageView::File { file_id, size, content }) => {
            if refs.len() > 0 {
                lemma_dispatch_keeps(
                    client.with_text(m.source_id, file_id, size, content, refs),
                    fetch_items(client.media_server, refs),
                );
            }
        },
        _ => {},
    }
}

/// A nack never takes a fragment out of the cache: the same keys are there
/// afterwards, each with the same packet and a count that did not go down.
pub proof fn lemma_nack_keeps_cache(
    client: MediaClientView,
    nack: Nack,
    session_id: u64,
    nack_src: NodeId,
)
    ensures
        forall|key: Key| #[trigger]
            client.nacked(nack, session_id, nack_src).0.cache.dom().contains(key)
                <==> client.cache.dom().contains(key),
        forall|key: Key| #[trigger]
            client.cache.dom().contains(key) ==> client.nacked(
                nack,
                session_id,
                nack_src,
            ).0.cache[key].0 == client.cache[key].0 && client.nacked(
                nack,
                session_id,
                nack_src,
            ).0.cache[key].1 >= client.cache[key].1,
{
}

/// The views of the items, in order.
pub open spec fn item_views(items: Seq<(NodeId, ClientMessage)>) -> Seq<(NodeId, ClientMessageView)> {
    Seq::new(items.len(), |i: int| (items[i].0, items[i].1@))
}

impl MediaClientView {
    /// The client with a text file put among the waiting ones.
    pub open spec fn with_text(
        self,
        source_id: NodeId,
        file_id: Seq<char>,
        size: usize,
        content: Seq<char>,
        refs: Seq<Seq<char>>,
    ) -> MediaClientView {
        MediaClientView {
            files: FileAssemblerView {
                texts: put_text(
                    self.files.texts,
                    PendingTextView {
                        source_id,
                        file_id,
                        content,
                        size,
                        media_ref: refs,
                    },
                ),
                media: self.files.media,
            },
            ..self
        }
    }

    /// The client after a message, and the actions that follow, where the
    /// search of a file for references to media gave `refs`.
    ///
    /// A server that says it holds media is remembered as a media server. A
    /// list of files is reported, and each server is asked for its type. A
    /// file without references is a bundle at once; one with references
    /// waits, and each of its media is asked of the media servers in turn. A
    /// media file is stored, and the first waiting file that it completes
    /// leaves as a bundle.
    pub open spec fn received_with(self, m: MessageView, refs: Seq<Seq<char>>) -> (
        MediaClientView,
        Seq<ActionView>,
    ) {
        match m.content {
            MessageContentView::FromClient(_) => (self, Seq::empty()),
            MessageContentView::FromServer(ServerMessageView::ServerType(kind)) => (
                MediaClientView {
                    media_server: if kind == ServerType::Media {
                        with_id(self.media_server, m.source_id)
                    } else {
                        self.media_server
                    },
                    ..self
                },
                seq![
                    ActionView::Notify(MediaClientEventView::ReceivedServerType(m.source_id, kind)),
                ],
            ),
            MessageContentView::FromServer(ServerMessageView::FilesList(ids)) => {
                let probed = self.dispatched_many(probe_items(self.router));
                (
                    probed.0,
                    seq![
                        ActionView::Notify(
                            MediaClientEventView::ReceivedFileList(m.source_id, self.id, ids),
                        ),
                    ] + probed.1,
                )
            },
            MessageContentView::FromServer(ServerMessageView::File { file_id, size, content }) => {
                if refs.len() == 0 {
                    (
                        self,
                        seq![
                            ActionView::Notify(
                                MediaClientEventView::CompleteBundle {
                                    source_id: m.source_id,
                                    file_id,
                                    content,
                                    media_content: Seq::empty(),
                                },
                            ),
                        ],
                    )
                } else {
                    self.with_text(m.source_id, file_id, size, content, refs).dispatched_many(
                        fetch_items(self.media_server, refs),
                    )
                }
            },
            MessageContentView::FromServer(ServerMessageView::Media(id, content)) => {
                let media = self.files.media.insert(id, content);
                let texts = self.files.texts;
                let at = first_satisfied(texts, media);
                if at < texts.len() {
                    (
                        MediaClientView {
                            files: FileAssemblerView {
                                texts: texts.remove(at),
                                media: without_refs(media, texts[at].media_ref),
                            },
                            ..self
                        },
                        seq![
                            ActionView::Notify(
                                MediaClientEventView::CompleteBundle {
                                    source_id: texts[at].source_id,
                                    file_id: texts[at].file_id,
                                    content: texts[at].content,
                                    media_content: bundle_media(texts[at].media_ref, media),
                                },
                            ),
                        ],
                    )
                } else {
                    (
                        MediaClientView {
                            files: FileAssemblerView { texts, media },
                            ..self
                        },
                        Seq::empty(),
                    )
                }
            },
        }
    }
}

/// The references to media that the parser finds in the file that a message
/// brings; none for any other message.
pub open spec fn file_refs(m: MessageView) -> Seq<Seq<char>> {
    match m.content {
        MessageContentView::FromServer(
            ServerMessageView::File { file_id, size, content },
        ) => extracted_refs(content),
        _ => Seq::empty(),
    }
}

impl MediaClientView {
    /// The step from `self` to `after` with `actions` is what the message
    /// leads to where the search for references gave `refs`.
    pub open spec fn is_received(
        self,
        after: MediaClientView,
        actions: Seq<ActionView>,
        m: MessageView,
        refs: Seq<Seq<char>>,
    ) -> bool {
        after == self.received_with(m, refs).0 && actions == self.received_with(m, refs).1
    }

    /// The references that matter for a packet: those of the file that the
    /// message brings which the packet's fragment completes.
    pub open spec fn packet_refs(self, packet: PacketView) -> Seq<Seq<char>> {
        match self.completed(packet) {
            Some(m) => file_refs(m),
            None => Seq::empty(),
        }
    }

    /// The step from `self` to `after` with `actions` is what the packet
    /// leads to where the search for references gave `refs`.
    pub open spec fn is_packet_received(
        self,
        after: MediaClientView,
        actions: Seq<ActionView>,
        packet: PacketView,
        refs: Seq<Seq<char>>,
    ) -> bool {
        after == self.packet_received_with(packet, refs).0 && actions
            == self.packet_received_with(packet, refs).1
    }
}

/// The node that a nack came from: the first hop of its route, or this node
/// where the route is empty.
pub open spec fn nack_source(header: RoutingHeaderView, me: NodeId) -> NodeId {
    match header.source() {
        Some(n) => n,
        None => me,
    }
}

/// The acknowledgement of a fragment that came in `packet`.
pub open spec fn ack_for(packet: PacketView, fragment_index: u64) -> PacketView {
    PacketView {
        routing_header: packet.routing_header.reversed(),
        session_id: packet.session_id,
        pack_type: PacketTypeView::Ack(Ack { fragment_index }),
    }
}

/// The refusal of a fragment that came in `packet` to node `me`, for which
/// it was not meant.
pub open spec fn refusal_for(packet: PacketView, fragment_index: u64, me: NodeId) -> PacketView {
    PacketView {
        routing_header: packet.routing_header.reversed(),
        session_id: packet.session_id,
        pack_type: PacketTypeView::Nack(
            Nack { fragment_index, nack_type: NackType::UnexpectedRecipient(me) },
        ),
    }
}

impl MediaClientView {
    /// The packet is at the hop it is meant for.
    pub open spec fn is_for_me(self, packet: PacketView) -> bool {
        packet.routing_header.current_hop() == Some(self.id)
    }

    /// The client after the fragment of a packet that was meant for it was
    /// taken in by the assembler.
    pub open spec fn with_fragment(self, packet: PacketView) -> MediaClientView {
        match packet.pack_type {
            PacketTypeView::MsgFragment(f) => {
                let key = (packet.session_id, packet.routing_header.hops[0]);
                MediaClientView {
                    sessions: with_session(
                        self.sessions,
                        key,
                        next_state(lookup(self.sessions, key), f),
                    ),
                    ..self
                }
            },
            _ => self,
        }
    }

    /// The message that the fragment of the packet completes, if any.
    pub open spec fn completed(self, packet: PacketView) -> Option<MessageView> {
        match packet.pack_type {
            PacketTypeView::MsgFragment(f) => message_output(
                lookup(self.sessions, (packet.session_id, packet.routing_header.hops[0])),
                f,
            ),
            _ => None,
        }
    }

    /// The client after a packet, and the actions that follow, where the
    /// search of a file for references to media gave `refs`.
    ///
    /// A fragment that is meant for this client is acknowledged and handed to
    /// the assembler, and the message it completes is handled; one that is
    /// not is refused. An ack takes the fragment out of the cache. A nack is
    /// handled as `nacked` says. A flood request is answered. A flood
    /// response is taken into the graph.
    pub open spec fn packet_received_with(self, packet: PacketView, refs: Seq<Seq<char>>) -> (
        MediaClientView,
        Seq<ActionView>,
    ) {
        match packet.pack_type {
            PacketTypeView::MsgFragment(f) => if self.is_for_me(packet) {
                let first = appended(
                    Seq::empty(),
                    send_action(self.neighbours, ack_for(packet, f.fragment_index), None),
                );
                match self.completed(packet) {
                    Some(m) => {
                        let then = self.with_fragment(packet).received_with(m, refs);
                        (then.0, first + then.1)
                    },
                    None => (self.with_fragment(packet), first),
                }
            } else {
                (
                    self,
                    appended(
                        Seq::empty(),
                        send_action(
                            self.neighbours,
                            refusal_for(packet, f.fragment_index, self.id),
                            None,
                        ),
                    ),
                )
            },
            PacketTypeView::Ack(a) => (
                MediaClientView {
                    cache: self.cache.remove((packet.session_id, a.fragment_index)),
                    ..self
                },
                Seq::empty(),
            ),
            PacketTypeView::Nack(n) => self.nacked(
                n,
                packet.session_id,
                nack_source(packet.routing_header, self.id),
            ),
            PacketTypeView::FloodRequest(r) => (
                self,
                appended(
                    Seq::empty(),
                    send_action(
                        self.neighbours,
                        flood_response_for(self.id, r, packet.session_id),
                        None,
                    ),
                ),
            ),
            PacketTypeView::FloodResponse(r) => (
                MediaClientView { router: self.router.flood_answered(r.path_trace), ..self },
                Seq::empty(),
            ),
        }
    }

    /// The client after asking server `id` for something, and the actions:
    /// the request is cut into packets, each packet is stored and sent on the
    /// route to `id`. Where no route leads there the controller hears of it
    /// and nothing is sent.
    pub open spec fn asked(self, id: NodeId, content: ClientMessageView) -> (
        MediaClientView,
        Seq<ActionView>,
    ) {
        match self.router.route_to(id) {
            Some(hops) => self.dispatched(content, header_of(hops)),
            None => (self, seq![ActionView::Notify(MediaClientEventView::UnreachableNode(id))]),
        }
    }

    /// The client after a command of the controller, and the actions that
    /// follow.
    pub open spec fn commanded(self, command: MediaClientCommandView) -> (
        MediaClientView,
        Seq<ActionView>,
    ) {
        match command {
            MediaClientCommandView::InitFlooding => self.flooded(FLOOD_SETTLE_MILLIS),
            MediaClientCommandView::RemoveSender(id) => (
                MediaClientView {
                    neighbours: without_id(self.neighbours, id),
                    router: self.router.neighbour_removed(id),
                    ..self
                },
                if self.neighbours.contains(id) {
                    seq![ActionView::Notify(MediaClientEventView::RemovedSender(id))]
                } else {
                    Seq::empty()
                },
            ),
            MediaClientCommandView::AddSender(id) => (
                MediaClientView {
                    neighbours: with_id(self.neighbours, id),
                    router: self.router.neighbour_added(id),
                    ..self
                },
                if self.neighbours.contains(id) {
                    Seq::empty()
                } else {
                    seq![ActionView::Notify(MediaClientEventView::AddedSender(id))]
                },
            ),
            MediaClientCommandView::GetServerList => {
                let probed = self.dispatched_many(probe_items(self.router));
                (
                    probed.0,
                    seq![
                        ActionView::Notify(
                            MediaClientEventView::ServerList(self.router.server_list()),
                        ),
                    ] + probed.1,
                )
            },
            MediaClientCommandView::AskServerType(id) => self.asked(
                id,
                ClientMessageView::GetServerType,
            ),
            MediaClientCommandView::AskFilesList(id) => self.asked(
                id,
                ClientMessageView::GetFilesList,
            ),
            MediaClientCommandView::AskForFile(id, file_id) => self.asked(
                id,
                ClientMessageView::GetFile(file_id),
            ),
        }
    }
}

} // verus!
