//! The packet data model: node identifiers, source routes and the five
//! payload kinds that travel over the drone network.
//!
//! Every type that owns heap data has a mathematical view, and contracts in
//! the rest of the crate speak of those views.

use vstd::prelude::*;

verus! {

/// Identifier of a node of the network.
pub type NodeId = u8;

/// What a node of the network is.
#[derive(Clone, Copy, Debug, PartialEq, Eq, Structural)]
pub enum NodeKind {
    Client,
    Drone,
    Server,
}

/// One entry of a flood's path trace.
pub type TraceEntry = (NodeId, NodeKind);

/// The node identifiers of a path trace, in order.
pub open spec fn trace_ids(trace: Seq<TraceEntry>) -> Seq<NodeId> {
    Seq::new(trace.len(), |i: int| trace[i].0)
}

/// A source route: the hops a packet travels and the position of the hop that
/// is to receive it next.
#[derive(Debug, PartialEq, Eq)]
pub struct RoutingHeader {
    pub hop_index: usize,
    pub hops: Vec<NodeId>,
}

pub struct RoutingHeaderView {
    pub hop_index: usize,
    pub hops: Seq<NodeId>,
}

impl View for RoutingHeader {
    type V = RoutingHeaderView;

    open spec fn view(&self) -> RoutingHeaderView {
        RoutingHeaderView { hop_index: self.hop_index, hops: self.hops@ }
    }
}

impl RoutingHeaderView {
    /// The hop index names one of the hops.
    pub open spec fn wf(self) -> bool {
        self.hop_index < self.hops.len()
    }

    /// The return path: the hops in reverse order, seen from its originator,
    /// whose next hop is at position 1.
    pub open spec fn reversed(self) -> RoutingHeaderView {
        RoutingHeaderView { hop_index: 1, hops: self.hops.reverse() }
    }

    pub open spec fn current_hop(self) -> Option<NodeId> {
        if self.hop_index < self.hops.len() {
            Some(self.hops[self.hop_index as int])
        } else {
            None
        }
    }

    pub open spec fn source(self) -> Option<NodeId> {
        if self.hops.len() > 0 {
            Some(self.hops[0])
        } else {
            None
        }
    }

    pub open spec fn destination(self) -> Option<NodeId> {
        if self.hops.len() > 0 {
            Some(self.hops.last())
        } else {
            None
        }
    }
}

/// A copy of a byte vector.
pub fn copy_bytes(v: &Vec<u8>) -> (res: Vec<u8>)
    ensures
        res@ == v@,
{
    let res = v.clone();
    assert(res@ =~= v@);
    res
}

/// The elements of `v` in reverse order.
pub fn reversed_ids(v: &Vec<NodeId>) -> (res: Vec<NodeId>)
    ensures
        res@ == v@.reverse(),
{
    let mut res: Vec<NodeId> = Vec::new();
    let mut i: usize = v.len();
    while i > 0
        invariant
            i <= v.len(),
            res@.len() == v.len() - i,
            forall|j: int| 0 <= j < res@.len() ==> res@[j] == v@[v.len() - 1 - j],
        decreases i,
    {
        i = i - 1;
        res.push(v[i]);
    }
    assert(res@ =~= v@.reverse());
    res
}

impl Clone for RoutingHeader {
    fn clone(&self) -> (res: Self)
        ensures
            res@ == self@,
    {
        RoutingHeader { hop_index: self.hop_index, hops: copy_bytes(&self.hops) }
    }
}

impl RoutingHeader {
    /// A route seen from its originator: the next hop is at position 1.
    pub fn with_first_hop(hops: Vec<NodeId>) -> (res: Self)
        ensures
            res@ == (RoutingHeaderView { hop_index: 1, hops: hops@ }),
    {
        RoutingHeader { hop_index: 1, hops }
    }

    /// A route without hops, as flood requests carry it.
    pub fn empty_route() -> (res: Self)
        ensures
            res@ == (RoutingHeaderView { hop_index: 0, hops: Seq::empty() }),
    {
        RoutingHeader { hop_index: 0, hops: Vec::new() }
    }

    pub fn get_reversed(&self) -> (res: Self)
        ensures
            res@ == self@.reversed(),
    {
        RoutingHeader { hop_index: 1, hops: reversed_ids(&self.hops) }
    }

    /// The hop that the hop index names, if it names one.
    pub fn current_hop(&self) -> (res: Option<NodeId>)
        ensures
            res == self@.current_hop(),
    {
        if self.hop_index < self.hops.len() {
            Some(self.hops[self.hop_index])
        } else {
            None
        }
    }

    pub fn source(&self) -> (res: Option<NodeId>)
        ensures
            res == self@.source(),
    {
        if self.hops.len() > 0 {
            Some(self.hops[0])
        } else {
            None
        }
    }

    pub fn destination(&self) -> (res: Option<NodeId>)
        ensures
            res == self@.destination(),
    {
        if self.hops.len() > 0 {
            Some(self.hops[self.hops.len() - 1])
        } else {
            None
        }
    }
}

/// One slice of a serialized message.
#[derive(Debug, PartialEq, Eq)]
pub struct Fragment {
    pub fragment_index: u64,
    pub total_n_fragments: u64,
    pub data: Vec<u8>,
}

pub struct FragmentView {
    pub fragment_index: u64,
    pub total_n_fragments: u64,
    pub data: Seq<u8>,
}

impl View for Fragment {
    type V = FragmentView;

    open spec fn view(&self) -> FragmentView {
        FragmentView {
            fragment_index: self.fragment_index,
            total_n_fragments: self.total_n_fragments,
            data: self.data@,
        }
    }
}

impl Clone for Fragment {
    fn clone(&self) -> (res: Self)
        ensures
            res@ == self@,
    {
        Fragment {
            fragment_index: self.fragment_index,
            total_n_fragments: self.total_n_fragments,
            data: copy_bytes(&self.data),
        }
    }
}

#[derive(Clone, Copy, Debug, PartialEq, Eq, Structural)]
pub struct Ack {
    pub fragment_index: u64,
}

/// Why a fragment could not be delivered.
#[derive(Clone, Copy, Debug, PartialEq, Eq, Structural)]
pub enum NackType {
    ErrorInRouting(NodeId),
    DestinationIsDrone,
    Dropped,
    UnexpectedRecipient(NodeId),
}

#[derive(Clone, Copy, Debug, PartialEq, Eq, Structural)]
pub struct Nack {
    pub fragment_index: u64,
    pub nack_type: NackType,
}

/// A copy of a path trace.
pub fn copy_trace(v: &Vec<TraceEntry>) -> (res: Vec<TraceEntry>)
    ensures
        res@ == v@,
{
    let mut res: Vec<TraceEntry> = Vec::new();
    let mut i: usize = 0;
    while i < v.len()
        invariant
            i <= v.len(),
            res@ == v@.take(i as int),
        decreases v.len() - i,
    {
        res.push(v[i]);
        i = i + 1;
        assert(res@ =~= v@.take(i as int));
    }
    assert(v@.take(v.len() as int) =~= v@);
    res
}

#[derive(Debug, PartialEq, Eq)]
pub struct FloodRequest {
    pub flood_id: u64,
    pub initiator_id: NodeId,
    pub path_trace: Vec<TraceEntry>,
}

pub struct FloodRequestView {
    pub flood_id: u64,
    pub initiator_id: NodeId,
    pub path_trace: Seq<TraceEntry>,
}

impl View for FloodRequest {
    type V = FloodRequestView;

    open spec fn view(&self) -> FloodRequestView {
        FloodRequestView {
            flood_id: self.flood_id,
            initiator_id: self.initiator_id,
            path_trace: self.path_trace@,
        }
    }
}

impl Clone for FloodRequest {
    fn clone(&self) -> (res: Self)
        ensures
            res@ == self@,
    {
        FloodRequest {
            flood_id: self.flood_id,
            initiator_id: self.initiator_id,
            path_trace: copy_trace(&self.path_trace),
        }
    }
}

#[derive(Debug, PartialEq, Eq)]
pub struct FloodResponse {
    pub flood_id: u64,
    pub path_trace: Vec<TraceEntry>,
}

pub struct FloodResponseView {
    pub flood_id: u64,
    pub path_trace: Seq<TraceEntry>,
}

impl View for FloodResponse {
    type V = FloodResponseView;

    open spec fn view(&self) -> FloodResponseView {
        FloodResponseView { flood_id: self.flood_id, path_trace: self.path_trace@ }
    }
}

impl Clone for FloodResponse {
    fn clone(&self) -> (res: Self)
        ensures
            res@ == self@,
    {
        FloodResponse { flood_id: self.flood_id, path_trace: copy_trace(&self.path_trace) }
    }
}

/// What a packet carries.
#[derive(Debug, PartialEq, Eq)]
pub enum PacketType {
    MsgFragment(Fragment),
    Ack(Ack),
    Nack(Nack),
    FloodRequest(FloodRequest),
    FloodResponse(FloodResponse),
}

pub enum PacketTypeView {
    MsgFragment(FragmentView),
    Ack(Ack),
    Nack(Nack),
    FloodRequest(FloodRequestView),
    FloodResponse(FloodResponseView),
}

impl View for PacketType {
    type V = PacketTypeView;

    open spec fn view(&self) -> PacketTypeView {
        match self {
            PacketType::MsgFragment(f) => PacketTypeView::MsgFragment(f@),
            PacketType::Ack(a) => PacketTypeView::Ack(*a),
            PacketType::Nack(n) => PacketTypeView::Nack(*n),
            PacketType::FloodRequest(r) => PacketTypeView::FloodRequest(r@),
            PacketType::FloodResponse(r) => PacketTypeView::FloodResponse(r@),
        }
    }
}

impl Clone for PacketType {
    fn clone(&self) -> (res: Self)
        ensures
            res@ == self@,
    {
        match self {
            PacketType::MsgFragment(f) => PacketType::MsgFragment(f.clone()),
            PacketType::Ack(a) => PacketType::Ack(*a),
            PacketType::Nack(n) => PacketType::Nack(*n),
            PacketType::FloodRequest(r) => PacketType::FloodRequest(r.clone()),
            PacketType::FloodResponse(r) => PacketType::FloodResponse(r.clone()),
        }
    }
}

#[derive(Debug, PartialEq, Eq)]
pub struct Packet {
    pub routing_header: RoutingHeader,
    pub session_id: u64,
    pub pack_type: PacketType,
}

pub struct PacketView {
    pub routing_header: RoutingHeaderView,
    pub session_id: u64,
    pub pack_type: PacketTypeView,
}

impl View for Packet {
    type V = PacketView;

    open spec fn view(&self) -> PacketView {
        PacketView {
            routing_header: self.routing_header@,
            session_id: self.session_id,
            pack_type: self.pack_type@,
        }
    }
}

impl Clone for Packet {
    fn clone(&self) -> (res: Self)
        ensures
            res@ == self@,
    {
        Packet {
            routing_header: self.routing_header.clone(),
            session_id: self.session_id,
            pack_type: self.pack_type.clone(),
        }
    }
}

impl PacketView {
    /// The index of the fragment that the packet carries or speaks of; 0 for
    /// the two flood payloads.
    pub open spec fn fragment_index(self) -> u64 {
        match self.pack_type {
            PacketTypeView::MsgFragment(f) => f.fragment_index,
            PacketTypeView::Ack(a) => a.fragment_index,
            PacketTypeView::Nack(n) => n.fragment_index,
            PacketTypeView::FloodRequest(_) => 0,
            PacketTypeView::FloodResponse(_) => 0,
        }
    }

    /// The packet may leave through the controller when its link is gone.
    pub open spec fn may_shortcut(self) -> bool {
        self.pack_type is Ack || self.pack_type is Nack || self.pack_type is FloodResponse
    }

    /// The same packet on another route.
    pub open spec fn rerouted(self, header: RoutingHeaderView) -> PacketView {
        PacketView { routing_header: header, ..self }
    }
}

impl Packet {
    pub fn new_fragment(routing_header: RoutingHeader, session_id: u64, fragment: Fragment) -> (res:
        Self)
        ensures
            res@ == (PacketView {
                routing_header: routing_header@,
                session_id,
                pack_type: PacketTypeView::MsgFragment(fragment@),
            }),
    {
        Packet { routing_header, session_id, pack_type: PacketType::MsgFragment(fragment) }
    }

    pub fn new_ack(routing_header: RoutingHeader, session_id: u64, fragment_index: u64) -> (res:
        Self)
        ensures
            res@ == (PacketView {
                routing_header: routing_header@,
                session_id,
                pack_type: PacketTypeView::Ack(Ack { fragment_index }),
            }),
    {
        Packet { routing_header, session_id, pack_type: PacketType::Ack(Ack { fragment_index }) }
    }

    pub fn new_nack(routing_header: RoutingHeader, session_id: u64, nack: Nack) -> (res: Self)
        ensures
            res@ == (PacketView {
                routing_header: routing_header@,
                session_id,
                pack_type: PacketTypeView::Nack(nack),
            }),
    {
        Packet { routing_header, session_id, pack_type: PacketType::Nack(nack) }
    }

    pub fn new_flood_request(
        routing_header: RoutingHeader,
        session_id: u64,
        flood_request: FloodRequest,
    ) -> (res: Self)
        ensures
            res@ == (PacketView {
                routing_header: routing_header@,
                session_id,
                pack_type: PacketTypeView::FloodRequest(flood_request@),
            }),
    {
        Packet { routing_header, session_id, pack_type: PacketType::FloodRequest(flood_request) }
    }

    pub fn new_flood_response(
        routing_header: RoutingHeader,
        session_id: u64,
        flood_response: FloodResponse,
    ) -> (res: Self)
        ensures
            res@ == (PacketView {
                routing_header: routing_header@,
                session_id,
                pack_type: PacketTypeView::FloodResponse(flood_response@),
            }),
    {
        Packet { routing_header, session_id, pack_type: PacketType::FloodResponse(flood_response) }
    }

    pub fn get_fragment_index(&self) -> (res: u64)
        ensures
            res == self@.fragment_index(),
    {
        match &self.pack_type {
            PacketType::MsgFragment(f) => f.fragment_index,
            PacketType::Ack(a) => a.fragment_index,
            PacketType::Nack(n) => n.fragment_index,
            PacketType::FloodRequest(_) => 0,
            PacketType::FloodResponse(_) => 0,
        }
    }
}

} // verus!
