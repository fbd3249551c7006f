//! The client's view of the network: which nodes it knows, what each of them
//! is, which pairs are linked and how often a fragment was reported lost next
//! to each link.

use vstd::prelude::*;
use crate::packet::{
    FloodRequest, FloodResponse, NodeId, NodeKind, Packet, PacketTypeView, PacketView,
    RoutingHeader, RoutingHeaderView, TraceEntry, FloodRequestView,
};

verus! {

/// Why the router could not do what it was asked.
#[derive(Clone, Copy, Debug, PartialEq, Eq, Structural)]
pub enum RoutingError {
    /// No route leads from this node to the destination.
    Unreachable(NodeId),
    /// The graph holds no such node besides this one.
    UnknownNode(NodeId),
}

/// The place of the pair `(a, b)` in the table of links.
pub open spec fn slot(a: NodeId, b: NodeId) -> int {
    a as int * 256 + b as int
}

/// Entries `j` and `j + 1` of the trace are `a` and `b`, in either order.
pub open spec fn joins_at(trace: Seq<TraceEntry>, j: int, a: NodeId, b: NodeId) -> bool {
    (trace[j].0 == a && trace[j + 1].0 == b) || (trace[j].0 == b && trace[j + 1].0 == a)
}

/// Two neighbouring entries among the first `k` of the trace are `a` and `b`.
pub open spec fn joined_within(trace: Seq<TraceEntry>, k: int, a: NodeId, b: NodeId) -> bool {
    exists|j: int| 0 <= j && j + 1 < k && #[trigger] joins_at(trace, j, a, b)
}

/// The kind of node `n` once every entry of the trace was taken in: the one
/// its last entry declares, or `before` where the trace has none for it.
pub open spec fn kind_after(trace: Seq<TraceEntry>, n: NodeId, before: Option<NodeKind>) -> Option<
    NodeKind,
>
    decreases trace.len(),
{
    if trace.len() == 0 {
        before
    } else if trace.last().0 == n {
        Some(trace.last().1)
    } else {
        kind_after(trace.drop_last(), n, before)
    }
}

/// A drop count one step further; it stays at its largest value.
pub open spec fn one_more_drop(count: u32) -> u32 {
    if count < u32::MAX {
        (count + 1) as u32
    } else {
        count
    }
}

/// A flood counter one step further; it stays at its largest value.
pub open spec fn next_flood(count: u64) -> u64 {
    if count < u64::MAX {
        (count + 1) as u64
    } else {
        count
    }
}

/// The graph as a value: for each node what it is, if it is known, and for
/// each pair of nodes the drop count of their link, if they are linked.
pub struct RouterView {
    pub id: NodeId,
    pub own_kind: NodeKind,
    /// By node identifier; 256 entries.
    pub kinds: Seq<Option<NodeKind>>,
    /// By `slot`; 65536 entries.
    pub links: Seq<Option<u32>>,
    pub flood_counter: u64,
}

impl RouterView {
    /// What node `n` is, if the graph holds it.
    pub open spec fn kind_of(self, n: NodeId) -> Option<NodeKind> {
        self.kinds[n as int]
    }

    /// The drop count of the link between `a` and `b`, if there is one.
    pub open spec fn drops(self, a: NodeId, b: NodeId) -> Option<u32> {
        self.links[slot(a, b)]
    }

    pub open spec fn linked(self, a: NodeId, b: NodeId) -> bool {
        self.drops(a, b).is_some()
    }

    /// What one step over the link between `a` and `b` costs.
    pub open spec fn weight(self, a: NodeId, b: NodeId) -> nat {
        match self.drops(a, b) {
            Some(d) => 1 + d as nat,
            None => 1,
        }
    }

    /// The tables have their full size, this node is in the graph, links go
    /// both ways between two different nodes of the graph.
    pub open spec fn wf(self) -> bool {
        &&& self.kinds.len() == 256
        &&& self.links.len() == 65536
        &&& self.kinds[self.id as int] == Some(self.own_kind)
        &&& forall|a: NodeId, b: NodeId| #[trigger] self.links[slot(a, b)] == self.links[slot(b, a)]
        &&& forall|a: NodeId| (#[trigger] self.links[slot(a, a)]).is_none()
        &&& forall|a: NodeId, b: NodeId|
            (#[trigger] self.links[slot(a, b)]).is_some() ==> self.kinds[a as int].is_some()
                && self.kinds[b as int].is_some()
    }

    /// The graph with the kinds and links that the two functions give.
    pub open spec fn remade(
        self,
        kinds: spec_fn(NodeId) -> Option<NodeKind>,
        links: spec_fn(NodeId, NodeId) -> Option<u32>,
    ) -> RouterView {
        RouterView {
            kinds: Seq::new(256, |n: int| kinds(n as u8)),
            links: Seq::new(65536, |s: int| links((s / 256) as u8, (s % 256) as u8)),
            ..self
        }
    }

    /// The graph after the controller gave this node a link to `n`.
    pub open spec fn neighbour_added(self, n: NodeId) -> RouterView {
        self.remade(
            |m: NodeId|
                if m == n && self.kind_of(m).is_none() {
                    Some(NodeKind::Drone)
                } else {
                    self.kind_of(m)
                },
            |x: NodeId, y: NodeId|
                if n != self.id && ((x == n && y == self.id) || (x == self.id && y == n))
                    && self.drops(x, y).is_none() {
                    Some(0u32)
                } else {
                    self.drops(x, y)
                },
        )
    }

    /// The graph after the controller took the link to `n` away.
    pub open spec fn neighbour_removed(self, n: NodeId) -> RouterView {
        self.remade(
            |m: NodeId| self.kind_of(m),
            |x: NodeId, y: NodeId|
                if (x == n && y == self.id) || (x == self.id && y == n) {
                    None::<u32>
                } else {
                    self.drops(x, y)
                },
        )
    }

    /// The graph after a flood response with the given trace was taken in.
    pub open spec fn flood_answered(self, trace: Seq<TraceEntry>) -> RouterView {
        self.remade(
            |m: NodeId|
                if m == self.id {
                    self.kind_of(m)
                } else {
                    kind_after(trace, m, self.kind_of(m))
                },
            |x: NodeId, y: NodeId|
                if self.drops(x, y).is_none() && x != y && joined_within(
                    trace,
                    trace.len() as int,
                    x,
                    y,
                ) {
                    Some(0u32)
                } else {
                    self.drops(x, y)
                },
        )
    }

    /// The graph without node `n` and its links.
    pub open spec fn crashed(self, n: NodeId) -> RouterView {
        self.remade(
            |m: NodeId|
                if m == n {
                    None::<NodeKind>
                } else {
                    self.kind_of(m)
                },
            |x: NodeId, y: NodeId|
                if x == n || y == n {
                    None::<u32>
                } else {
                    self.drops(x, y)
                },
        )
    }

    /// Node `n` can be taken out of the graph: it is known and not this node.
    pub open spec fn can_crash(self, n: NodeId) -> bool {
        n != self.id && self.kind_of(n).is_some()
    }

    /// The graph with one more drop counted on every link of node `n`.
    pub open spec fn dropped(self, n: NodeId) -> RouterView {
        self.remade(
            |m: NodeId| self.kind_of(m),
            |x: NodeId, y: NodeId|
                match self.drops(x, y) {
                    Some(d) => if x == n || y == n {
                        Some(one_more_drop(d))
                    } else {
                        Some(d)
                    },
                    None => None::<u32>,
                },
        )
    }

    /// The graph that holds this node alone.
    pub open spec fn cleared(self) -> RouterView {
        self.remade(
            |m: NodeId|
                if m == self.id {
                    Some(self.own_kind)
                } else {
                    None::<NodeKind>
                },
            |x: NodeId, y: NodeId| None::<u32>,
        )
    }

    /// The same graph with the flood counter moved on.
    pub open spec fn counted(self) -> RouterView {
        RouterView { flood_counter: next_flood(self.flood_counter), ..self }
    }

    /// The servers among the nodes below `n`, by ascending identifier.
    pub open spec fn servers_below(self, n: nat) -> Seq<NodeId>
        decreases n,
    {
        if n == 0 {
            Seq::empty()
        } else if self.kinds[n - 1] == Some(NodeKind::Server) {
            self.servers_below((n - 1) as nat).push((n - 1) as u8)
        } else {
            self.servers_below((n - 1) as nat)
        }
    }

    /// The servers of the graph, by ascending identifier.
    pub open spec fn server_list(self) -> Seq<NodeId> {
        self.servers_below(256)
    }

    /// The request that opens the next flood from this node.
    pub open spec fn flood_request(self) -> PacketView {
        PacketView {
            routing_header: RoutingHeaderView { hop_index: 0, hops: Seq::empty() },
            session_id: 0,
            pack_type: PacketTypeView::FloodRequest(
                FloodRequestView {
                    flood_id: self.flood_counter,
                    initiator_id: self.id,
                    path_trace: seq![(self.id, self.own_kind)],
                },
            ),
        }
    }
}

/// The graph that holds node `id` alone, before any flood.
pub open spec fn blank(id: NodeId, kind: NodeKind) -> RouterView {
    RouterView {
        id,
        own_kind: kind,
        kinds: Seq::new(
            256,
            |n: int|
                if n == id {
                    Some(kind)
                } else {
                    None::<NodeKind>
                },
        ),
        links: Seq::new(65536, |s: int| None::<u32>),
        flood_counter: 0,
    }
}

proof fn lemma_kind_after_twice(trace: Seq<TraceEntry>, n: NodeId, before: Option<NodeKind>)
    ensures
        kind_after(trace, n, kind_after(trace, n, before)) == kind_after(trace, n, before),
    decreases trace.len(),
{
    if trace.len() > 0 && trace.last().0 != n {
        lemma_kind_after_inner(trace.drop_last(), n, before, kind_after(trace, n, before));
    }
}

/// The kind after a trace depends on the kind before only where the trace
/// does not name the node.
proof fn lemma_kind_after_inner(
    trace: Seq<TraceEntry>,
    n: NodeId,
    a: Option<NodeKind>,
    b: Option<NodeKind>,
)
    requires
        kind_after(trace, n, a) == b,
    ensures
        kind_after(trace, n, b) == b,
    decreases trace.len(),
{
    if trace.len() > 0 && trace.last().0 != n {
        lemma_kind_after_inner(trace.drop_last(), n, a, b);
    }
}

/// Taking the same flood response in a second time changes nothing.
pub proof fn lemma_flood_answered_twice(router: RouterView, trace: Seq<TraceEntry>)
    requires
        router.wf(),
    ensures
        router.flood_answered(trace).flood_answered(trace) == router.flood_answered(trace),
{
    let once = router.flood_answered(trace);
    let twice = once.flood_answered(trace);
    assert forall|n: NodeId| #[trigger] twice.kind_of(n) == once.kind_of(n) by {
        lemma_kind_after_twice(trace, n, router.kind_of(n));
    }
    assert forall|x: NodeId, y: NodeId| #[trigger] twice.drops(x, y) == once.drops(x, y) by {
        assert(slot(x, y) / 256 == x as int && slot(x, y) % 256 == y as int);
    }
    lemma_same_view(twice, once);
}

/// Two graphs of full size that agree on every node and on every pair of
/// nodes are the same.
pub proof fn lemma_same_view(a: RouterView, b: RouterView)
    requires
        a.kinds.len() == 256,
        b.kinds.len() == 256,
        a.links.len() == 65536,
        b.links.len() == 65536,
        a.id == b.id,
        a.own_kind == b.own_kind,
        a.flood_counter == b.flood_counter,
        forall|n: NodeId| #[trigger] a.kind_of(n) == b.kind_of(n),
        forall|x: NodeId, y: NodeId| #[trigger] a.drops(x, y) == b.drops(x, y),
    ensures
        a == b,
{
    assert forall|n: int| 0 <= n < 256 implies a.kinds[n] == b.kinds[n] by {
        assert(a.kind_of(n as u8) == b.kind_of(n as u8));
    }
    assert forall|s: int| 0 <= s < 65536 implies a.links[s] == b.links[s] by {
        let x = (s / 256) as u8;
        let y = (s % 256) as u8;
        assert(slot(x, y) == s);
        assert(a.drops(x, y) == b.drops(x, y));
    }
    assert(a.kinds =~= b.kinds);
    assert(a.links =~= b.links);
}

pub struct Router {
    id: NodeId,
    node_kind: NodeKind,
    kinds: Vec<Option<NodeKind>>,
    links: Vec<Option<u32>>,
    flood_counter: u64,
}

impl Router {
    /// The graph as a value.
    pub closed spec fn view(&self) -> RouterView {
        RouterView {
            id: self.id,
            own_kind: self.node_kind,
            kinds: self.kinds@,
            links: self.links@,
            flood_counter: self.flood_counter,
        }
    }

    /// This node's identifier.
    pub open spec fn id(&self) -> NodeId {
        self@.id
    }

    /// What this node is.
    pub open spec fn own_kind(&self) -> NodeKind {
        self@.own_kind
    }

    /// What node `n` is, if the graph holds it.
    pub open spec fn kind_of(&self, n: NodeId) -> Option<NodeKind> {
        self@.kind_of(n)
    }

    /// The drop count of the link between `a` and `b`, if there is one.
    pub open spec fn drops(&self, a: NodeId, b: NodeId) -> Option<u32> {
        self@.drops(a, b)
    }

    /// The identifier that the next flood gets.
    pub open spec fn flood_counter(&self) -> u64 {
        self@.flood_counter
    }

    pub open spec fn linked(&self, a: NodeId, b: NodeId) -> bool {
        self@.linked(a, b)
    }

    /// What one step over the link between `a` and `b` costs.
    pub open spec fn weight(&self, a: NodeId, b: NodeId) -> nat {
        self@.weight(a, b)
    }

    pub open spec fn wf(&self) -> bool {
        self@.wf()
    }

    /// A router that agrees with a graph on every node and on every pair of
    /// nodes has that graph as its view.
    proof fn lemma_view_is(&self, target: RouterView)
        requires
            self.wf(),
            target.kinds.len() == 256,
            target.links.len() == 65536,
            self.id() == target.id,
            self.own_kind() == target.own_kind,
            self.flood_counter() == target.flood_counter,
            forall|n: NodeId| #[trigger] self.kind_of(n) == target.kind_of(n),
            forall|x: NodeId, y: NodeId| #[trigger] self.drops(x, y) == target.drops(x, y),
        ensures
            self@ == target,
    {
        assert forall|n: NodeId| #[trigger] self@.kind_of(n) == target.kind_of(n) by {
            assert(self.kind_of(n) == target.kind_of(n));
        }
        assert forall|x: NodeId, y: NodeId| #[trigger]
            self@.drops(x, y) == target.drops(x, y) by {
            assert(self.drops(x, y) == target.drops(x, y));
        }
        lemma_same_view(self@, target);
    }

    /// What well-formedness says, over the public accessors.
    pub proof fn lemma_wf(&self)
        requires
            self.wf(),
        ensures
            self.kind_of(self.id()) == Some(self.own_kind()),
            forall|a: NodeId, b: NodeId| #[trigger] self.drops(a, b) == self.drops(b, a),
            forall|a: NodeId| !#[trigger] self.linked(a, a),
            forall|a: NodeId, b: NodeId| #[trigger]
                self.linked(a, b) ==> self.kind_of(a).is_some() && self.kind_of(b).is_some(),
    {
    }

    /// A graph that holds this node alone.
    pub fn new(id: NodeId, node_kind: NodeKind) -> (res: Self)
        ensures
            res.wf(),
            res@ == blank(id, node_kind),
            res.id() == id,
            res.own_kind() == node_kind,
            res.flood_counter() == 0,
            forall|n: NodeId| #[trigger]
                res.kind_of(n) == if n == id {
                    Some(node_kind)
                } else {
                    None::<NodeKind>
                },
            forall|a: NodeId, b: NodeId| !#[trigger] res.linked(a, b),
    {
        let mut kinds: Vec<Option<NodeKind>> = Vec::new();
        let mut i: usize = 0;
        while i < 256
            invariant
                i <= 256,
                kinds@.len() == i,
                forall|j: int| 0 <= j < i ==> (#[trigger] kinds@[j]).is_none(),
            decreases 256 - i,
        {
            kinds.push(None);
            i = i + 1;
        }
        kinds[id as usize] = Some(node_kind);
        let mut links: Vec<Option<u32>> = Vec::new();
        let mut k: usize = 0;
        while k < 65536
            invariant
                k <= 65536,
                links@.len() == k,
                forall|j: int| 0 <= j < k ==> (#[trigger] links@[j]).is_none(),
            decreases 65536 - k,
        {
            links.push(None);
            k = k + 1;
        }
        let res = Router { id, node_kind, kinds, links, flood_counter: 0 };
        proof {
            lemma_same_view(res@, blank(id, node_kind));
        }
        res
    }

    /// This node's identifier.
    pub fn get_id(&self) -> (res: NodeId)
        ensures
            res == self.id(),
    {
        self.id
    }

    /// What node `n` is, if the graph holds it.
    pub fn kind_at(&self, n: NodeId) -> (res: Option<NodeKind>)
        requires
            self.wf(),
        ensures
            res == self.kind_of(n),
    {
        self.kinds[n as usize]
    }

    /// The drop count of the link between `a` and `b`, if there is one.
    pub fn drops_at(&self, a: NodeId, b: NodeId) -> (res: Option<u32>)
        requires
            self.wf(),
        ensures
            res == self.drops(a, b),
    {
        self.links[a as usize * 256 + b as usize]
    }

    /// Makes the link between two different nodes of the graph, in both
    /// directions, unless it is there already.
    fn link(&mut self, a: NodeId, b: NodeId)
        requires
            old(self).wf(),
            a != b,
            old(self).kind_of(a).is_some(),
            old(self).kind_of(b).is_some(),
        ensures
            final(self).wf(),
            final(self).id() == old(self).id(),
            final(self).own_kind() == old(self).own_kind(),
            final(self).flood_counter() == old(self).flood_counter(),
            forall|n: NodeId| #[trigger] final(self).kind_of(n) == old(self).kind_of(n),
            forall|x: NodeId, y: NodeId| #[trigger]
                final(self).drops(x, y) == if ((x == a && y == b) || (x == b && y == a)) && old(
                    self,
                ).drops(x, y).is_none() {
                    Some(0u32)
                } else {
                    old(self).drops(x, y)
                },
    {
        let ab: usize = a as usize * 256 + b as usize;
        let ba: usize = b as usize * 256 + a as usize;
        assert(ab == slot(a, b) && ba == slot(b, a));
        assert(self.links@[slot(a, b)] == self.links@[slot(b, a)]);
        if self.links[ab].is_none() {
            self.links[ab] = Some(0);
            self.links[ba] = Some(0);
        }
        assert forall|x: NodeId, y: NodeId| #[trigger]
            self.links@[slot(x, y)] == self.links@[slot(y, x)] by {
            assert(old(self).links@[slot(x, y)] == old(self).links@[slot(y, x)]);
        }
        assert forall|x: NodeId| (#[trigger] self.links@[slot(x, x)]).is_none() by {
            assert(old(self).links@[slot(x, x)].is_none());
        }
        assert forall|x: NodeId, y: NodeId| (#[trigger] self.links@[slot(x, y)]).is_some() implies (
        self.kinds@[x as int].is_some() && self.kinds@[y as int].is_some()) by {
            if old(self).links@[slot(x, y)].is_some() {
            }
        }
    }

    /// Removes the link between `a` and `b`, in both directions.
    fn unlink(&mut self, a: NodeId, b: NodeId)
        requires
            old(self).wf(),
        ensures
            final(self).wf(),
            final(self).id() == old(self).id(),
            final(self).own_kind() == old(self).own_kind(),
            final(self).flood_counter() == old(self).flood_counter(),
            forall|n: NodeId| #[trigger] final(self).kind_of(n) == old(self).kind_of(n),
            forall|x: NodeId, y: NodeId| #[trigger]
                final(self).drops(x, y) == if (x == a && y == b) || (x == b && y == a) {
                    None::<u32>
                } else {
                    old(self).drops(x, y)
                },
    {
        let ab: usize = a as usize * 256 + b as usize;
        let ba: usize = b as usize * 256 + a as usize;
        assert(ab == slot(a, b) && ba == slot(b, a));
        self.links[ab] = None;
        self.links[ba] = None;
        assert forall|x: NodeId, y: NodeId| #[trigger]
            self.links@[slot(x, y)] == self.links@[slot(y, x)] by {
            assert(old(self).links@[slot(x, y)] == old(self).links@[slot(y, x)]);
        }
        assert forall|x: NodeId| (#[trigger] self.links@[slot(x, x)]).is_none() by {
            assert(old(self).links@[slot(x, x)].is_none());
        }
        assert forall|x: NodeId, y: NodeId| (#[trigger] self.links@[slot(x, y)]).is_some() implies (
        self.kinds@[x as int].is_some() && self.kinds@[y as int].is_some()) by {
            assert(old(self).links@[slot(x, y)].is_some());
        }
    }

    /// Takes node `n` into the graph as a `kind`, or changes what it is; this
    /// node itself stays what it is.
    fn mark(&mut self, n: NodeId, kind: NodeKind)
        requires
            old(self).wf(),
        ensures
            final(self).wf(),
            final(self).id() == old(self).id(),
            final(self).own_kind() == old(self).own_kind(),
            final(self).flood_counter() == old(self).flood_counter(),
            forall|m: NodeId| #[trigger]
                final(self).kind_of(m) == if m == n && n != old(self).id() {
                    Some(kind)
                } else {
                    old(self).kind_of(m)
                },
            forall|x: NodeId, y: NodeId| #[trigger] final(self).drops(x, y) == old(self).drops(x, y),
    {
        if n != self.id {
            self.kinds[n as usize] = Some(kind);
        }
        assert forall|x: NodeId, y: NodeId| (#[trigger] self.links@[slot(x, y)]).is_some() implies (
        self.kinds@[x as int].is_some() && self.kinds@[y as int].is_some()) by {
            assert(old(self).links@[slot(x, y)].is_some());
        }
    }

    /// The controller gave this node a link to `id`: the node is taken into the
    /// graph, as a drone unless it is known already, and linked to this one.
    pub fn add_neighbour(&mut self, id: NodeId)
        requires
            old(self).wf(),
        ensures
            final(self).wf(),
            final(self)@ == old(self)@.neighbour_added(id),
            final(self).id() == old(self).id(),
            final(self).own_kind() == old(self).own_kind(),
            final(self).flood_counter() == old(self).flood_counter(),
            forall|n: NodeId| #[trigger]
                final(self).kind_of(n) == if n == id && old(self).kind_of(n).is_none() {
                    Some(NodeKind::Drone)
                } else {
                    old(self).kind_of(n)
                },
            forall|x: NodeId, y: NodeId| #[trigger]
                final(self).drops(x, y) == if id != old(self).id() && ((x == id && y == old(
                    self,
                ).id()) || (x == old(self).id() && y == id)) && old(self).drops(x, y).is_none() {
                    Some(0u32)
                } else {
                    old(self).drops(x, y)
                },
    {
        if id != self.id {
            if self.kinds[id as usize].is_none() {
                self.mark(id, NodeKind::Drone);
            }
            let me = self.id;
            self.link(me, id);
        }
        proof {
            self.lemma_view_is(old(self)@.neighbour_added(id));
        }
    }

    /// The controller took the link to `id` away from this node.
    pub fn remove_neighbour(&mut self, id: NodeId)
        requires
            old(self).wf(),
        ensures
            final(self).wf(),
            final(self)@ == old(self)@.neighbour_removed(id),
            final(self).id() == old(self).id(),
            final(self).own_kind() == old(self).own_kind(),
            final(self).flood_counter() == old(self).flood_counter(),
            forall|n: NodeId| #[trigger] final(self).kind_of(n) == old(self).kind_of(n),
            forall|x: NodeId, y: NodeId| #[trigger]
                final(self).drops(x, y) == if (x == id && y == old(self).id()) || (x == old(
                    self,
                ).id() && y == id) {
                    None::<u32>
                } else {
                    old(self).drops(x, y)
                },
    {
        let me = self.id;
        self.unlink(me, id);
        proof {
            self.lemma_view_is(old(self)@.neighbour_removed(id));
        }
    }

    /// The servers of the graph, by ascending identifier.
    pub fn get_server_list(&self) -> (res: Vec<NodeId>)
        requires
            self.wf(),
        ensures
            res@ == self@.server_list(),
            forall|i: int, j: int| 0 <= i < j < res@.len() ==> res@[i] < res@[j],
            forall|n: NodeId|
                res@.contains(n) <==> #[trigger] self.kind_of(n) == Some(NodeKind::Server),
    {
        let mut res: Vec<NodeId> = Vec::new();
        let mut i: usize = 0;
        while i < 256
            invariant
                self.wf(),
                i <= 256,
                res@ == self@.servers_below(i as nat),
                forall|a: int, b: int| 0 <= a < b < res@.len() ==> res@[a] < res@[b],
                forall|a: int| 0 <= a < res@.len() ==> (#[trigger] res@[a] as int) < i,
                forall|n: NodeId|
                    res@.contains(n) <==> ((n as int) < i && #[trigger] self.kind_of(n) == Some(
                        NodeKind::Server,
                    )),
            decreases 256 - i,
        {
            let ghost before = res@;
            if let Some(NodeKind::Server) = self.kinds[i] {
                res.push(i as u8);
                assert forall|n: NodeId|
                    res@.contains(n) <==> ((n as int) < i + 1 && #[trigger] self.kind_of(n)
                        == Some(NodeKind::Server)) by {
                    if res@.contains(n) {
                        let k = choose|k: int| 0 <= k < res@.len() && res@[k] == n;
                        if k < before.len() {
                            assert(before[k] == n);
                            assert(before.contains(n));
                        }
                    }
                    if (n as int) < i + 1 && self.kind_of(n) == Some(NodeKind::Server) {
                        if n as int == i {
                            assert(res@[before.len() as int] == n);
                        } else {
                            assert(before.contains(n));
                            let k = choose|k: int| 0 <= k < before.len() && before[k] == n;
                            assert(res@[k] == n);
                        }
                    }
                }
            }
            i = i + 1;
        }
        res
    }

    /// A request that opens a new flood from this node, and the counter moved on.
    pub fn get_flood_request(&mut self) -> (res: Packet)
        requires
            old(self).wf(),
        ensures
            final(self).wf(),
            res@ == old(self).flood_request(),
            final(self)@ == old(self)@.counted(),
            final(self).same_graph(old(self)),
            final(self).flood_counter() == next_flood(old(self).flood_counter()),
    {
        let mut path_trace: Vec<TraceEntry> = Vec::new();
        path_trace.push((self.id, self.node_kind));
        let request = FloodRequest {
            flood_id: self.flood_counter,
            initiator_id: self.id,
            path_trace,
        };
        assert(request@.path_trace =~= seq![(self.id, self.node_kind)]);
        let packet = Packet::new_flood_request(RoutingHeader::empty_route(), 0, request);
        if self.flood_counter < u64::MAX {
            self.flood_counter = self.flood_counter + 1;
        }
        packet
    }

    /// The request that opens the next flood from this node.
    pub open spec fn flood_request(&self) -> PacketView {
        self@.flood_request()
    }

    /// The same node with the same nodes and links.
    pub open spec fn same_graph(&self, other: &Router) -> bool {
        &&& self.id() == other.id()
        &&& self.own_kind() == other.own_kind()
        &&& forall|n: NodeId| #[trigger] self.kind_of(n) == other.kind_of(n)
        &&& forall|x: NodeId, y: NodeId| #[trigger] self.drops(x, y) == other.drops(x, y)
    }

    /// `count` copies of the request that opens one new flood, one for each
    /// link it is to leave on.
    pub fn get_flood_requests(&mut self, count: usize) -> (res: Vec<Packet>)
        requires
            old(self).wf(),
        ensures
            final(self).wf(),
            res@.len() == count,
            forall|i: int| 0 <= i < count ==> (#[trigger] res@[i])@ == old(self).flood_request(),
            final(self)@ == old(self)@.counted(),
            final(self).same_graph(old(self)),
            final(self).flood_counter() == next_flood(old(self).flood_counter()),
    {
        let first = self.get_flood_request();
        let mut res: Vec<Packet> = Vec::new();
        let mut i: usize = 0;
        while i < count
            invariant
                i <= count,
                res@.len() == i,
                forall|j: int| 0 <= j < i ==> (#[trigger] res@[j])@ == first@,
            decreases count - i,
        {
            res.push(first.clone());
            i = i + 1;
        }
        res
    }

    /// Takes in what a flood response tells: each node of its trace with the
    /// kind declared there, and a link between each two neighbouring entries.
    /// A link that is known keeps its drop count.
    pub fn handle_flood_response(&mut self, response: &FloodResponse)
        requires
            old(self).wf(),
        ensures
            final(self).wf(),
            final(self)@ == old(self)@.flood_answered(response@.path_trace),
            final(self).id() == old(self).id(),
            final(self).own_kind() == old(self).own_kind(),
            final(self).flood_counter() == old(self).flood_counter(),
            forall|n: NodeId| #[trigger]
                final(self).kind_of(n) == if n == old(self).id() {
                    old(self).kind_of(n)
                } else {
                    kind_after(response@.path_trace, n, old(self).kind_of(n))
                },
            forall|x: NodeId, y: NodeId| #[trigger]
                final(self).drops(x, y) == if old(self).drops(x, y).is_none() && x != y
                    && joined_within(response@.path_trace, response@.path_trace.len() as int, x, y) {
                    Some(0u32)
                } else {
                    old(self).drops(x, y)
                },
    {
        let ghost trace = response@.path_trace;
        let mut i: usize = 0;
        assert(trace.take(0) =~= Seq::<TraceEntry>::empty());
        while i < response.path_trace.len()
            invariant
                trace == response@.path_trace,
                i <= trace.len(),
                self.wf(),
                self.id() == old(self).id(),
                self.own_kind() == old(self).own_kind(),
                self.flood_counter() == old(self).flood_counter(),
                forall|j: int| 0 <= j < i ==> self.kind_of(#[trigger] trace[j].0).is_some(),
                forall|n: NodeId| #[trigger]
                    self.kind_of(n) == if n == old(self).id() {
                        old(self).kind_of(n)
                    } else {
                        kind_after(trace.take(i as int), n, old(self).kind_of(n))
                    },
                forall|x: NodeId, y: NodeId| #[trigger]
                    self.drops(x, y) == if old(self).drops(x, y).is_none() && x != y
                        && joined_within(trace, i as int, x, y) {
                        Some(0u32)
                    } else {
                        old(self).drops(x, y)
                    },
            decreases trace.len() - i,
        {
            let ghost mid = *self;
            let entry = response.path_trace[i];
            self.mark(entry.0, entry.1);
            proof {
                assert(trace.take(i + 1).drop_last() =~= trace.take(i as int));
                assert(trace.take(i + 1).last() == trace[i as int]);
                mid.lemma_wf();
            }
            if i > 0 {
                let earlier = response.path_trace[i - 1];
                assert(self.kind_of(trace[i - 1].0).is_some());
                if earlier.0 != entry.0 {
                    self.link(earlier.0, entry.0);
                }
            }
            proof {
                assert forall|x: NodeId, y: NodeId| #[trigger]
                    self.drops(x, y) == if old(self).drops(x, y).is_none() && x != y
                        && joined_within(trace, i + 1, x, y) {
                        Some(0u32)
                    } else {
                        old(self).drops(x, y)
                    } by {
                    if joined_within(trace, i + 1, x, y) {
                        let j = choose|j: int| 0 <= j && j + 1 < i + 1 && joins_at(trace, j, x, y);
                        if j + 1 < i {
                            assert(joined_within(trace, i as int, x, y));
                        }
                    }
                    if joined_within(trace, i as int, x, y) {
                        let j = choose|j: int| 0 <= j && j + 1 < i && joins_at(trace, j, x, y);
                        assert(joins_at(trace, j, x, y));
                    }
                    if i > 0 && joins_at(trace, i - 1, x, y) {
                        assert(joined_within(trace, i + 1, x, y));
                    }
                }
                assert forall|j: int| 0 <= j < i + 1 implies self.kind_of(
                    #[trigger] trace[j].0,
                ).is_some() by {
                    if j < i {
                        assert(mid.kind_of(trace[j].0).is_some());
                    }
                }
            }
            i = i + 1;
        }
        assert(trace.take(trace.len() as int) =~= trace);
        proof {
            self.lemma_view_is(old(self)@.flood_answered(trace));
        }
    }

    /// Takes node `id` and every link of it out of the graph. This node itself
    /// cannot be taken out.
    pub fn drone_crashed(&mut self, id: NodeId) -> (res: Result<(), RoutingError>)
        requires
            old(self).wf(),
        ensures
            final(self).wf(),
            final(self).id() == old(self).id(),
            final(self).own_kind() == old(self).own_kind(),
            final(self).flood_counter() == old(self).flood_counter(),
            res.is_ok() <==> old(self)@.can_crash(id),
            final(self)@ == if old(self)@.can_crash(id) {
                old(self)@.crashed(id)
            } else {
                old(self)@
            },
            res.is_err() ==> res == Err::<(), RoutingError>(RoutingError::UnknownNode(id))
                && final(self).same_graph(old(self)),
            res.is_ok() ==> (forall|n: NodeId| #[trigger]
                final(self).kind_of(n) == if n == id {
                    None::<NodeKind>
                } else {
                    old(self).kind_of(n)
                }) && (forall|x: NodeId, y: NodeId| #[trigger]
                final(self).drops(x, y) == if x == id || y == id {
                    None::<u32>
                } else {
                    old(self).drops(x, y)
                }),
    {
        if id == self.id || self.kinds[id as usize].is_none() {
            return Err(RoutingError::UnknownNode(id));
        }
        let mut i: usize = 0;
        while i < 256
            invariant
                i <= 256,
                self.wf(),
                self.id() == old(self).id(),
                self.own_kind() == old(self).own_kind(),
                self.flood_counter() == old(self).flood_counter(),
                forall|n: NodeId| #[trigger] self.kind_of(n) == old(self).kind_of(n),
                forall|x: NodeId, y: NodeId| #[trigger]
                    self.drops(x, y) == if (x == id && (y as int) < i) || (y == id && (x as int)
                        < i) {
                        None::<u32>
                    } else {
                        old(self).drops(x, y)
                    },
            decreases 256 - i,
        {
            self.unlink(id, i as u8);
            i = i + 1;
        }
        let ghost mid = *self;
        self.kinds[id as usize] = None;
        proof {
            assert forall|x: NodeId, y: NodeId|
                (#[trigger] self.links@[slot(x, y)]).is_some() implies (self.kinds@[x as int].is_some()
                && self.kinds@[y as int].is_some()) by {
                assert(mid.drops(x, y).is_some());
            }
            assert forall|x: NodeId, y: NodeId| #[trigger]
                self.drops(x, y) == if x == id || y == id {
                    None::<u32>
                } else {
                    old(self).drops(x, y)
                } by {
                assert(self.drops(x, y) == mid.drops(x, y));
            }
            assert forall|n: NodeId| #[trigger]
                self.kind_of(n) == if n == id {
                    None::<NodeKind>
                } else {
                    old(self).kind_of(n)
                } by {
                assert(mid.kind_of(n) == old(self).kind_of(n));
            }
            self.lemma_view_is(old(self)@.crashed(id));
        }
        Ok(())
    }

    /// A fragment was reported lost at node `nack_src`: every link of that node
    /// counts one more drop.
    pub fn dropped_fragment(&mut self, nack_src: NodeId)
        requires
            old(self).wf(),
        ensures
            final(self).wf(),
            final(self)@ == old(self)@.dropped(nack_src),
            final(self).id() == old(self).id(),
            final(self).own_kind() == old(self).own_kind(),
            final(self).flood_counter() == old(self).flood_counter(),
            forall|n: NodeId| #[trigger] final(self).kind_of(n) == old(self).kind_of(n),
            forall|x: NodeId, y: NodeId| #[trigger]
                final(self).drops(x, y) == match old(self).drops(x, y) {
                    Some(d) => if x == nack_src || y == nack_src {
                        Some(one_more_drop(d))
                    } else {
                        Some(d)
                    },
                    None => None::<u32>,
                },
    {
        let mut i: usize = 0;
        while i < 256
            invariant
                i <= 256,
                self.wf(),
                self.id() == old(self).id(),
                self.own_kind() == old(self).own_kind(),
                self.flood_counter() == old(self).flood_counter(),
                forall|n: NodeId| #[trigger] self.kind_of(n) == old(self).kind_of(n),
                forall|x: NodeId, y: NodeId| #[trigger]
                    self.drops(x, y) == match old(self).drops(x, y) {
                        Some(d) => if (x == nack_src && (y as int) < i) || (y == nack_src && (
                        x as int) < i) {
                            Some(one_more_drop(d))
                        } else {
                            Some(d)
                        },
                        None => None::<u32>,
                    },
            decreases 256 - i,
        {
            let ghost mid = *self;
            let other: u8 = i as u8;
            let ab: usize = nack_src as usize * 256 + i;
            let ba: usize = i * 256 + nack_src as usize;
            assert(ab == slot(nack_src, other) && ba == slot(other, nack_src));
            assert(self.links@[slot(nack_src, other)] == self.links@[slot(other, nack_src)]);
            if let Some(d) = self.links[ab] {
                let more: u32 = if d < u32::MAX {
                    d + 1
                } else {
                    d
                };
                self.links[ab] = Some(more);
                self.links[ba] = Some(more);
            }
            proof {
                assert forall|n: NodeId| #[trigger] self.kind_of(n) == old(self).kind_of(n) by {
                    assert(mid.kind_of(n) == old(self).kind_of(n));
                }
                assert forall|x: NodeId, y: NodeId| #[trigger]
                    self.links@[slot(x, y)] == self.links@[slot(y, x)] by {
                    assert(mid.links@[slot(x, y)] == mid.links@[slot(y, x)]);
                }
                assert forall|x: NodeId| (#[trigger] self.links@[slot(x, x)]).is_none() by {
                    assert(mid.links@[slot(x, x)].is_none());
                }
                assert forall|x: NodeId, y: NodeId|
                    (#[trigger] self.links@[slot(x, y)]).is_some() implies (self.kinds@[x as int].is_some()
                    && self.kinds@[y as int].is_some()) by {
                    assert(mid.links@[slot(x, y)].is_some());
                }
                assert forall|x: NodeId, y: NodeId| #[trigger]
                    self.drops(x, y) == match old(self).drops(x, y) {
                        Some(d) => if (x == nack_src && (y as int) < i + 1) || (y == nack_src && (
                        x as int) < i + 1) {
                            Some(one_more_drop(d))
                        } else {
                            Some(d)
                        },
                        None => None::<u32>,
                    } by {
                    assert(mid.drops(x, y) == mid.links@[slot(x, y)]);
                }
            }
            i = i + 1;
        }
        proof {
            self.lemma_view_is(old(self)@.dropped(nack_src));
        }
    }

    /// Forgets every node and link but this node itself.
    pub fn clear_routing_table(&mut self)
        requires
            old(self).wf(),
        ensures
            final(self).wf(),
            final(self)@ == old(self)@.cleared(),
            final(self).id() == old(self).id(),
            final(self).own_kind() == old(self).own_kind(),
            final(self).flood_counter() == old(self).flood_counter(),
            forall|n: NodeId| #[trigger]
                final(self).kind_of(n) == if n == old(self).id() {
                    Some(old(self).own_kind())
                } else {
                    None::<NodeKind>
                },
            forall|a: NodeId, b: NodeId| !#[trigger] final(self).linked(a, b),
    {
        let fresh = Router::new(self.id, self.node_kind);
        let ghost fresh_view = fresh@;
        let Router { id: _, node_kind: _, kinds, links, flood_counter: _ } = fresh;
        self.kinds = kinds;
        self.links = links;
        proof {
            assert forall|n: NodeId| #[trigger]
                self.kind_of(n) == if n == old(self).id() {
                    Some(old(self).own_kind())
                } else {
                    None::<NodeKind>
                } by {
                assert(self.kind_of(n) == fresh_view.kind_of(n));
            }
            assert forall|a: NodeId, b: NodeId| !#[trigger] self.linked(a, b) by {
                assert(self.drops(a, b) == fresh_view.drops(a, b));
                assert(!fresh_view.linked(a, b));
            }
            self.lemma_view_is(old(self)@.cleared());
        }
    }
}

} // verus!
