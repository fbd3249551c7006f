//! Route selection: the cheapest loop-free path from this node to a
//! destination, over drones only, where a step over a link costs one more than
//! the drops counted on it. Among equally cheap paths one is chosen by a rule
//! that leaves no choice, so that the route to a destination is a function of
//! the graph.

use vstd::prelude::*;
use crate::packet::{reversed_ids, NodeId, NodeKind, RoutingHeader, RoutingHeaderView};
use crate::router::{Router, RouterView, RoutingError};

verus! {

/// The largest cost of one step.
pub open spec fn step_limit() -> int {
    0x1_0000_0000
}

/// How many entries of `done` are still open.
pub open spec fn open_count(done: Seq<bool>) -> nat
    decreases done.len(),
{
    if done.len() == 0 {
        0
    } else {
        open_count(done.drop_last()) + if done.last() {
            0nat
        } else {
            1nat
        }
    }
}

proof fn lemma_open_count_bound(done: Seq<bool>)
    ensures
        open_count(done) <= done.len(),
    decreases done.len(),
{
    if done.len() > 0 {
        lemma_open_count_bound(done.drop_last());
    }
}

proof fn lemma_close_one(done: Seq<bool>, u: int)
    requires
        0 <= u < done.len(),
        !done[u],
    ensures
        open_count(done.update(u, true)) + 1 == open_count(done),
    decreases done.len(),
{
    let after = done.update(u, true);
    if u == done.len() - 1 {
        assert(after.drop_last() =~= done.drop_last());
    } else {
        lemma_close_one(done.drop_last(), u);
        assert(after.drop_last() =~= done.drop_last().update(u, true));
    }
}

/// The header of a packet that sets out on the route: the next hop is the
/// second node, or the only one.
pub open spec fn header_of(hops: Seq<NodeId>) -> RoutingHeaderView {
    RoutingHeaderView {
        hop_index: if hops.len() > 1 {
            1usize
        } else {
            0usize
        },
        hops,
    }
}

/// A node at cost `ca` comes before one at cost `cb`: it is nearer, or as
/// near and its identifier is not the greater.
pub open spec fn before(ca: nat, a: NodeId, cb: nat, b: NodeId) -> bool {
    ca < cb || (ca == cb && a <= b)
}

/// Node `a` is nearer than `b`, or as near with the smaller identifier.
spec fn nearer(ca: int, a: NodeId, cb: int, b: NodeId) -> bool {
    ca < cb || (ca == cb && a < b)
}

/// A closed node is nearer than an open one that has a label.
spec fn closes_before(dist: Seq<Option<u64>>, done: Seq<bool>, a: NodeId, b: NodeId) -> bool {
    done[a as int] && !done[b as int] && dist[b as int].is_some() ==> dist[a as int].is_some()
        && nearer(dist[a as int].unwrap() as int, a, dist[b as int].unwrap() as int, b)
}

spec fn ordered_ok(dist: Seq<Option<u64>>, done: Seq<bool>) -> bool {
    forall|a: NodeId, b: NodeId| #[trigger] closes_before(dist, done, a, b)
}

/// Every closed node but `u` is nearer than `u`.
spec fn earlier_ok(dist: Seq<Option<u64>>, done: Seq<bool>, u: NodeId, du: u64) -> bool {
    forall|a: NodeId|
        (#[trigger] done[a as int]) && a != u ==> dist[a as int].is_some() && nearer(
            dist[a as int].unwrap() as int,
            a,
            du as int,
            u,
        )
}

impl RouterView {
    /// Entries `i` and `i + 1` of the path are linked.
    pub open spec fn step_ok(self, p: Seq<NodeId>, i: int) -> bool {
        self.linked(p[i], p[i + 1])
    }

    /// A packet may pass through node `n`: it is this node or a drone.
    pub open spec fn may_relay(self, n: NodeId) -> bool {
        n == self.id || self.kind_of(n) == Some(NodeKind::Drone)
    }

    /// A walk that starts at this node, goes over links, and passes through
    /// drones only.
    pub open spec fn is_trail(self, p: Seq<NodeId>) -> bool {
        &&& p.len() >= 1
        &&& p[0] == self.id
        &&& forall|i: int| 0 <= i < p.len() - 1 ==> #[trigger] self.step_ok(p, i)
        &&& forall|i: int|
            0 < i < p.len() - 1 ==> self.kind_of(#[trigger] p[i]) == Some(NodeKind::Drone)
    }

    /// A trail to `dest` on which no node occurs twice.
    pub open spec fn is_route(self, p: Seq<NodeId>, dest: NodeId) -> bool {
        self.is_trail(p) && p.last() == dest && p.no_duplicates()
    }

    /// A route to `dest` that costs no more than any way there, loop-free or
    /// not.
    pub open spec fn is_best_route(self, p: Seq<NodeId>, dest: NodeId) -> bool {
        self.is_route(p, dest) && forall|q: Seq<NodeId>|
            #[trigger] self.is_trail(q) && q.last() == dest ==> self.cost(p) <= self.cost(q)
    }

    /// The trail `q` rivals the route `p` at position `i`: it ends at a node
    /// from which a packet may go on, that node is linked to `p[i]`, and over
    /// it `p[i]` is reached at the cost at which `p` reaches it.
    pub open spec fn rivals(self, p: Seq<NodeId>, i: int, q: Seq<NodeId>) -> bool {
        &&& self.is_trail(q)
        &&& (q.len() == 1 || self.kind_of(q.last()) == Some(NodeKind::Drone))
        &&& self.linked(q.last(), p[i])
        &&& self.cost(q) + self.weight(q.last(), p[i]) == self.cost(p.take(i + 1))
    }

    /// The route that is chosen among the cheapest ones: at each of its nodes
    /// it arrives from the nearest node from which that node can be reached as
    /// cheaply, and among equally near ones from the one with the smallest
    /// identifier.
    pub open spec fn is_chosen_route(self, p: Seq<NodeId>, dest: NodeId) -> bool {
        &&& self.is_best_route(p, dest)
        &&& forall|i: int, q: Seq<NodeId>|
            1 <= i < p.len() && #[trigger] self.rivals(p, i, q) ==> before(
                self.cost(p.take(i)),
                p[i - 1],
                self.cost(q),
                q.last(),
            )
    }

    /// The route that the router takes to `dest`: the chosen one where any
    /// route leads there.
    pub open spec fn route_to(self, dest: NodeId) -> Option<Seq<NodeId>> {
        if self.reachable(dest) {
            Some(choose|p: Seq<NodeId>| self.is_chosen_route(p, dest))
        } else {
            None
        }
    }

    /// Some route leads to `dest`.
    pub open spec fn reachable(self, dest: NodeId) -> bool {
        exists|q: Seq<NodeId>| self.is_route(q, dest)
    }

    /// What the steps of a path cost together.
    pub open spec fn cost(self, p: Seq<NodeId>) -> nat
        decreases p.len(),
    {
        if p.len() <= 1 {
            0
        } else {
            self.cost(p.drop_last()) + self.weight(p[p.len() - 2], p[p.len() - 1])
        }
    }

    /// A route is a simple path from this node to the destination that goes
    /// over links and passes through drones only.
    pub proof fn lemma_route_shape(self, p: Seq<NodeId>, dest: NodeId)
        requires
            self.is_route(p, dest),
        ensures
            p.len() >= 1,
            p[0] == self.id,
            p[p.len() - 1] == dest,
            forall|i: int, j: int| 0 <= i < j < p.len() ==> p[i] != p[j],
            forall|i: int| 0 <= i < p.len() - 1 ==> self.linked(#[trigger] p[i], p[i + 1]),
            forall|i: int|
                0 < i < p.len() - 1 ==> self.kind_of(#[trigger] p[i]) == Some(NodeKind::Drone),
    {
        assert forall|i: int| 0 <= i < p.len() - 1 implies self.linked(
            #[trigger] p[i],
            p[i + 1],
        ) by {
            assert(self.step_ok(p, i));
        }
    }

    /// The header of a route names one of its hops as the next, starts at
    /// this node and ends at the destination.
    pub proof fn lemma_route_header(self, p: Seq<NodeId>, dest: NodeId)
        requires
            self.is_route(p, dest),
        ensures
            header_of(p).wf(),
            header_of(p).source() == Some(self.id),
            header_of(p).destination() == Some(dest),
            p.len() > 1 ==> header_of(p).current_hop() == Some(p[1]),
    {
    }

    proof fn lemma_trail_prefix(self, q: Seq<NodeId>, k: int)
        requires
            self.is_trail(q),
            1 <= k <= q.len(),
        ensures
            self.is_trail(q.take(k)),
    {
        let t = q.take(k);
        assert forall|i: int| 0 <= i < t.len() - 1 implies #[trigger] self.step_ok(t, i) by {
            assert(self.step_ok(q, i));
        }
        assert forall|i: int| 0 < i < t.len() - 1 implies self.kind_of(#[trigger] t[i]) == Some(
            NodeKind::Drone,
        ) by {
            assert(t[i] == q[i]);
        }
    }

    proof fn lemma_cost_prefix(self, q: Seq<NodeId>, k: int)
        requires
            0 <= k <= q.len(),
        ensures
            self.cost(q.take(k)) <= self.cost(q),
        decreases q.len(),
    {
        if k == q.len() {
            assert(q.take(k) =~= q);
        } else if q.len() <= 1 {
            assert(q.take(k).len() <= 1);
        } else {
            self.lemma_cost_prefix(q.drop_last(), k);
            assert(q.drop_last().take(k) =~= q.take(k));
        }
    }

    proof fn lemma_cost_push(self, p: Seq<NodeId>, v: NodeId)
        requires
            p.len() >= 1,
        ensures
            self.cost(p.push(v)) == self.cost(p) + self.weight(p.last(), v),
    {
        assert(p.push(v).drop_last() =~= p);
    }

    proof fn lemma_trail_push(self, p: Seq<NodeId>, v: NodeId)
        requires
            self.is_trail(p),
            p.len() == 1 || self.kind_of(p.last()) == Some(NodeKind::Drone),
            self.linked(p.last(), v),
        ensures
            self.is_trail(p.push(v)),
    {
        let t = p.push(v);
        assert forall|i: int| 0 <= i < t.len() - 1 implies #[trigger] self.step_ok(t, i) by {
            if i < p.len() - 1 {
                assert(self.step_ok(p, i));
            }
        }
        assert forall|i: int| 0 < i < t.len() - 1 implies self.kind_of(#[trigger] t[i]) == Some(
            NodeKind::Drone,
        ) by {
            if i < p.len() - 1 {
                assert(t[i] == p[i]);
            }
        }
    }

    /// The label of node `v` is backed by a path.
    spec fn label_ok(
        self,
        dist: Seq<Option<u64>>,
        done: Seq<bool>,
        prev: Seq<NodeId>,
        paths: Seq<Seq<NodeId>>,
        v: NodeId,
    ) -> bool {
        dist[v as int] matches Some(c) ==> {
            let p = paths[v as int];
            &&& self.is_route(p, v)
            &&& self.cost(p) == c
            &&& c <= (256 - open_count(done) - if done[v as int] {
                1int
            } else {
                0int
            }) * step_limit()
            &&& forall|i: int| 0 <= i < p.len() - 1 ==> done[#[trigger] p[i] as int]
            &&& if v == self.id {
                p.len() == 1
            } else {
                &&& p.len() >= 2
                &&& prev[v as int] == p[p.len() - 2]
                &&& dist[prev[v as int] as int].is_some()
                &&& paths[prev[v as int] as int] == p.drop_last()
            }
        }
    }

    spec fn labels_ok(
        self,
        dist: Seq<Option<u64>>,
        done: Seq<bool>,
        prev: Seq<NodeId>,
        paths: Seq<Seq<NodeId>>,
    ) -> bool {
        &&& dist.len() == 256
        &&& done.len() == 256
        &&& prev.len() == 256
        &&& paths.len() == 256
        &&& dist[self.id as int] == Some(0u64)
        &&& forall|v: NodeId| #[trigger] done[v as int] ==> dist[v as int].is_some()
        &&& forall|v: NodeId| #[trigger] self.label_ok(dist, done, prev, paths, v)
    }

    /// Every link of a closed relay other than `u`, and every link of `u` to a
    /// node below `n`, was used to improve the label at its far end.
    spec fn relaxed_ok(self, dist: Seq<Option<u64>>, done: Seq<bool>, u: NodeId, n: int) -> bool {
        forall|a: NodeId, b: NodeId|
            #[trigger] self.linked(a, b) && done[a as int] && self.may_relay(a) && (a != u || (
            b as int) < n) ==> dist[a as int].is_some() && dist[b as int].is_some()
                && dist[b as int].unwrap() <= dist[a as int].unwrap() + self.weight(a, b)
    }

    /// The label of a closed node is the least cost of a trail to it.
    spec fn settled_ok(self, dist: Seq<Option<u64>>, done: Seq<bool>) -> bool {
        forall|q: Seq<NodeId>|
            #[trigger] self.is_trail(q) && done[q.last() as int] ==> dist[q.last() as int].is_some()
                && dist[q.last() as int].unwrap() <= self.cost(q)
    }

    /// The node before `v` on its path comes before every closed relay over
    /// which `v` is reached as cheaply. Of the links of `u` only those to
    /// nodes below `n` count.
    spec fn first_ok(
        self,
        dist: Seq<Option<u64>>,
        done: Seq<bool>,
        prev: Seq<NodeId>,
        u: NodeId,
        n: int,
    ) -> bool {
        forall|a: NodeId, v: NodeId|
            #[trigger] self.linked(a, v) && done[a as int] && self.may_relay(a) && (a != u || (
            v as int) < n) && v != self.id && dist[a as int].is_some() && dist[v as int].is_some()
                && dist[a as int].unwrap() + self.weight(a, v) == dist[v as int].unwrap()
                ==> dist[prev[v as int] as int].is_some() && before(
                dist[prev[v as int] as int].unwrap() as nat,
                prev[v as int],
                dist[a as int].unwrap() as nat,
                a,
            )
    }

    /// Along the path of a labelled node each node has the part of the path
    /// up to it as its own path.
    proof fn lemma_chain(
        self,
        dist: Seq<Option<u64>>,
        done: Seq<bool>,
        prev: Seq<NodeId>,
        paths: Seq<Seq<NodeId>>,
        dest: NodeId,
        k: int,
    )
        requires
            self.labels_ok(dist, done, prev, paths),
            dist[dest as int].is_some(),
            0 <= k < paths[dest as int].len(),
        ensures
            dist[paths[dest as int][k] as int] == Some(
                self.cost(paths[dest as int].take(k + 1)) as u64,
            ),
            self.cost(paths[dest as int].take(k + 1)) <= u64::MAX,
            paths[paths[dest as int][k] as int] == paths[dest as int].take(k + 1),
            k >= 1 ==> prev[paths[dest as int][k] as int] == paths[dest as int][k - 1],
            k >= 1 ==> paths[dest as int][k] != self.id,
        decreases paths[dest as int].len() - k,
    {
        let goal = paths[dest as int];
        assert(self.label_ok(dist, done, prev, paths, dest));
        if k == goal.len() - 1 {
            assert(goal.take(k + 1) =~= goal);
            if k >= 1 {
                assert(goal[0] != goal[k]);
            }
        } else {
            self.lemma_chain(dist, done, prev, paths, dest, k + 1);
            let x = goal[k + 1];
            assert(self.label_ok(dist, done, prev, paths, x));
            let px = paths[x as int];
            assert(px == goal.take(k + 2));
            assert(px.drop_last() =~= goal.take(k + 1));
            let y = prev[x as int];
            assert(y == goal[k]);
            assert(self.label_ok(dist, done, prev, paths, y));
            if k >= 1 {
                assert(goal[0] != goal[k]);
                assert(self.label_ok(dist, done, prev, paths, goal[k]));
                let py = paths[goal[k] as int];
                assert(py[py.len() - 2] == goal[k - 1]);
            }
        }
    }

    /// At the moment a node is picked, its path is the chosen route to it.
    proof fn lemma_chosen(
        self,
        dist: Seq<Option<u64>>,
        done: Seq<bool>,
        prev: Seq<NodeId>,
        paths: Seq<Seq<NodeId>>,
        dest: NodeId,
        i: int,
        q: Seq<NodeId>,
    )
        requires
            self.wf(),
            self.labels_ok(dist, done, prev, paths),
            self.relaxed_ok(dist, done, self.id, 256),
            self.settled_ok(dist, done),
            self.first_ok(dist, done, prev, self.id, 256),
            !done[dest as int],
            dist[dest as int].is_some(),
            forall|v: NodeId|
                !done[v as int] && (#[trigger] dist[v as int]).is_some()
                    ==> dist[dest as int].unwrap() <= dist[v as int].unwrap(),
            1 <= i < paths[dest as int].len(),
            self.rivals(paths[dest as int], i, q),
        ensures
            before(
                self.cost(paths[dest as int].take(i)),
                paths[dest as int][i - 1],
                self.cost(q),
                q.last(),
            ),
    {
        let goal = paths[dest as int];
        let v = goal[i];
        let a = q.last();
        let dd = dist[dest as int].unwrap();
        self.lemma_chain(dist, done, prev, paths, dest, i);
        self.lemma_chain(dist, done, prev, paths, dest, i - 1);
        assert(self.label_ok(dist, done, prev, paths, dest));
        self.lemma_cost_prefix(goal, i + 1);
        assert(dist[v as int].unwrap() <= dd);
        assert(self.weight(a, v) >= 1);
        if !done[a as int] {
            self.lemma_trail_bound(dist, done, q, dd as int, 0);
        }
        assert(done[a as int]);
        assert(self.may_relay(a)) by {
            if q.len() == 1 {
                assert(q[0] == self.id);
            }
        }
        assert(self.is_trail(q) && done[q.last() as int]);
        assert(dist[a as int].unwrap() <= self.cost(q));
        assert(self.linked(a, v));
        assert(dist[v as int].unwrap() <= dist[a as int].unwrap() + self.weight(a, v));
        assert(dist[a as int].unwrap() == self.cost(q));
    }

    /// A chosen route without its last node is the chosen route to the node
    /// before.
    proof fn lemma_chosen_prefix(self, p: Seq<NodeId>, dest: NodeId)
        requires
            self.is_chosen_route(p, dest),
            p.len() >= 2,
        ensures
            self.is_chosen_route(p.drop_last(), p[p.len() - 2]),
    {
        let q1 = p.drop_last();
        let u1 = p[p.len() - 2];
        assert(q1 =~= p.take(p.len() - 1));
        self.lemma_trail_prefix(p, p.len() - 1);
        assert(self.step_ok(p, p.len() - 2));
        assert(self.cost(p) == self.cost(q1) + self.weight(u1, dest));
        assert forall|t: Seq<NodeId>| #[trigger] self.is_trail(t) && t.last() == u1 implies self.cost(
            q1,
        ) <= self.cost(t) by {
            if q1.len() > 1 {
                assert(self.kind_of(p[p.len() - 2]) == Some(NodeKind::Drone));
                self.lemma_trail_push(t, dest);
                self.lemma_cost_push(t, dest);
                assert(t.push(dest).last() == dest);
            }
        }
        assert forall|i: int, q: Seq<NodeId>|
            1 <= i < q1.len() && #[trigger] self.rivals(q1, i, q) implies before(
            self.cost(q1.take(i)),
            q1[i - 1],
            self.cost(q),
            q.last(),
        ) by {
            assert(q1.take(i + 1) =~= p.take(i + 1));
            assert(q1.take(i) =~= p.take(i));
            assert(self.rivals(p, i, q));
        }
    }

    /// There is one chosen route to a node at most.
    pub proof fn lemma_chosen_route_unique(self, left: Seq<NodeId>, right: Seq<NodeId>, dest: NodeId)
        requires
            self.is_chosen_route(left, dest),
            self.is_chosen_route(right, dest),
        ensures
            left == right,
        decreases left.len(),
    {
        if left.len() == 1 || right.len() == 1 {
            // the destination is this node: a route that comes back to it
            // would hold it twice
            if left.len() > 1 {
                assert(left[0] == left[left.len() - 1]);
            }
            if right.len() > 1 {
                assert(right[0] == right[right.len() - 1]);
            }
            assert(left =~= right);
        } else {
            let q1 = left.drop_last();
            let q2 = right.drop_last();
            let u1 = left[left.len() - 2];
            let u2 = right[right.len() - 2];
            assert(q1 =~= left.take(left.len() - 1));
            assert(q2 =~= right.take(right.len() - 1));
            assert(left.take(left.len() as int) =~= left);
            assert(right.take(right.len() as int) =~= right);
            self.lemma_trail_prefix(left, left.len() - 1);
            self.lemma_trail_prefix(right, right.len() - 1);
            assert(self.step_ok(left, left.len() - 2));
            assert(self.step_ok(right, right.len() - 2));
            assert(self.cost(left) == self.cost(right));
            assert(self.rivals(left, left.len() - 1, q2)) by {
                if q2.len() > 1 {
                    assert(self.kind_of(right[right.len() - 2]) == Some(NodeKind::Drone));
                }
            }
            assert(self.rivals(right, right.len() - 1, q1)) by {
                if q1.len() > 1 {
                    assert(self.kind_of(left[left.len() - 2]) == Some(NodeKind::Drone));
                }
            }
            assert(u1 == u2);
            self.lemma_chosen_prefix(left, dest);
            self.lemma_chosen_prefix(right, dest);
            self.lemma_chosen_route_unique(q1, q2, u1);
            assert(left =~= q1.push(dest));
            assert(right =~= q2.push(dest));
        }
    }

    /// Some trail to `dest` costs `c`.
    spec fn costs(self, dest: NodeId, c: nat) -> bool {
        exists|q: Seq<NodeId>| #[trigger] self.is_trail(q) && q.last() == dest && self.cost(q) == c
    }

    /// `c` is the least cost of a trail to `dest`.
    spec fn least_cost(self, dest: NodeId, c: nat) -> bool {
        self.costs(dest, c) && forall|k: nat| k < c ==> !#[trigger] self.costs(dest, k)
    }

    /// Over node `u`, which a trail reaches at cost `c1`, `dest` is reached
    /// at cost `c`.
    spec fn arrives(self, dest: NodeId, c: nat, c1: nat, u: NodeId) -> bool {
        exists|t: Seq<NodeId>|
            #[trigger] self.is_trail(t) && t.last() == u && (t.len() == 1 || self.kind_of(u)
                == Some(NodeKind::Drone)) && self.linked(u, dest) && self.cost(t) == c1 && c1
                + self.weight(u, dest) == c
    }

    spec fn arrives_at(self, dest: NodeId, c: nat, c1: nat) -> bool {
        exists|u: NodeId| #[trigger] self.arrives(dest, c, c1, u)
    }

    proof fn lemma_least_cost(self, dest: NodeId, n: nat) -> (c: nat)
        requires
            self.costs(dest, n),
        ensures
            c <= n,
            self.least_cost(dest, c),
        decreases n,
    {
        if exists|k: nat| k < n && #[trigger] self.costs(dest, k) {
            let k = choose|k: nat| k < n && #[trigger] self.costs(dest, k);
            self.lemma_least_cost(dest, k)
        } else {
            n
        }
    }

    proof fn lemma_least_arrival(self, dest: NodeId, c: nat, n: nat) -> (c1: nat)
        requires
            self.arrives_at(dest, c, n),
        ensures
            c1 <= n,
            self.arrives_at(dest, c, c1),
            forall|k: nat| k < c1 ==> !#[trigger] self.arrives_at(dest, c, k),
        decreases n,
    {
        if exists|k: nat| k < n && #[trigger] self.arrives_at(dest, c, k) {
            let k = choose|k: nat| k < n && #[trigger] self.arrives_at(dest, c, k);
            self.lemma_least_arrival(dest, c, k)
        } else {
            n
        }
    }

    proof fn lemma_least_node(self, dest: NodeId, c: nat, c1: nat, n: NodeId) -> (u: NodeId)
        requires
            self.arrives(dest, c, c1, n),
        ensures
            u <= n,
            self.arrives(dest, c, c1, u),
            forall|v: NodeId| v < u ==> !#[trigger] self.arrives(dest, c, c1, v),
        decreases n,
    {
        if exists|v: NodeId| v < n && #[trigger] self.arrives(dest, c, c1, v) {
            let v = choose|v: NodeId| v < n && #[trigger] self.arrives(dest, c, c1, v);
            self.lemma_least_node(dest, c, c1, v)
        } else {
            n
        }
    }

    /// Where the least cost of a trail to `dest` is `c`, a chosen route leads
    /// there at that cost.
    proof fn lemma_chosen_at(self, dest: NodeId, c: nat) -> (p: Seq<NodeId>)
        requires
            self.least_cost(dest, c),
        ensures
            self.is_chosen_route(p, dest),
            self.cost(p) == c,
        decreases c,
    {
        if dest == self.id {
            let p = seq![self.id];
            assert(self.is_trail(p) && p.last() == dest && self.cost(p) == 0);
            assert(self.costs(dest, 0));
            assert(c == 0);
            p
        } else {
            let q = choose|q: Seq<NodeId>|
                #[trigger] self.is_trail(q) && q.last() == dest && self.cost(q) == c;
            let t0 = q.drop_last();
            let u0 = q[q.len() - 2];
            assert(t0 =~= q.take(q.len() - 1));
            self.lemma_trail_prefix(q, q.len() - 1);
            assert(self.step_ok(q, q.len() - 2));
            assert(self.is_trail(t0) && t0.last() == u0 && (t0.len() == 1 || self.kind_of(u0) == Some(
                NodeKind::Drone,
            )) && self.linked(u0, dest) && self.cost(t0) == self.cost(t0) && self.cost(t0)
                + self.weight(u0, dest) == c) by {
                if t0.len() > 1 {
                    assert(self.kind_of(q[q.len() - 2]) == Some(NodeKind::Drone));
                }
            }
            assert(self.arrives(dest, c, self.cost(t0), u0));
            let c1 = self.lemma_least_arrival(dest, c, self.cost(t0));
            let some = choose|u: NodeId| #[trigger] self.arrives(dest, c, c1, u);
            let u = self.lemma_least_node(dest, c, c1, some);
            let t = choose|t: Seq<NodeId>|
                #[trigger] self.is_trail(t) && t.last() == u && (t.len() == 1 || self.kind_of(u)
                    == Some(NodeKind::Drone)) && self.linked(u, dest) && self.cost(t) == c1 && c1
                    + self.weight(u, dest) == c;
            assert(self.costs(u, c1));
            assert forall|k: nat| k < c1 implies !#[trigger] self.costs(u, k) by {
                if self.costs(u, k) {
                    let t2 = choose|t2: Seq<NodeId>|
                        #[trigger] self.is_trail(t2) && t2.last() == u && self.cost(t2) == k;
                    if self.kind_of(u) == Some(NodeKind::Drone) {
                        self.lemma_trail_push(t2, dest);
                        self.lemma_cost_push(t2, dest);
                        let far = t2.push(dest);
                        assert(self.is_trail(far) && far.last() == dest);
                        assert(self.costs(dest, self.cost(far)));
                    } else {
                        assert(t.len() == 1);
                    }
                }
            }
            let r = self.lemma_chosen_at(u, c1);
            let p = r.push(dest);
            assert(r.len() == 1 || self.kind_of(u) == Some(NodeKind::Drone)) by {
                if self.kind_of(u) != Some(NodeKind::Drone) {
                    assert(t.len() == 1);
                    assert(t[0] == self.id);
                    if r.len() > 1 {
                        assert(r[0] == r[r.len() - 1]);
                    }
                }
            }
            self.lemma_trail_push(r, dest);
            self.lemma_cost_push(r, dest);
            assert(p.drop_last() =~= r);
            assert(p.take(p.len() - 1) =~= r);
            assert(p.take(p.len() as int) =~= p);
            assert(p.no_duplicates()) by {
                assert forall|a: int, b: int|
                    0 <= a < p.len() && 0 <= b < p.len() && a != b implies p[a] != p[b] by {
                    if a < r.len() && b < r.len() {
                        assert(r[a] != r[b]);
                    } else {
                        let k = if a < r.len() { a } else { b };
                        if r[k] == dest {
                            self.lemma_trail_prefix(r, k + 1);
                            self.lemma_cost_prefix(r, k + 1);
                            let near = r.take(k + 1);
                            assert(self.is_trail(near) && near.last() == dest);
                            assert(self.costs(dest, self.cost(near)));
                        }
                    }
                }
            }
            assert forall|q2: Seq<NodeId>|
                #[trigger] self.is_trail(q2) && q2.last() == dest implies self.cost(p)
                <= self.cost(q2) by {
                if self.cost(q2) < c {
                    assert(self.costs(dest, self.cost(q2)));
                }
            }
            assert forall|i: int, q2: Seq<NodeId>|
                1 <= i < p.len() && #[trigger] self.rivals(p, i, q2) implies before(
                self.cost(p.take(i)),
                p[i - 1],
                self.cost(q2),
                q2.last(),
            ) by {
                if i == p.len() - 1 {
                    assert(self.arrives(dest, c, self.cost(q2), q2.last()));
                    assert(self.arrives_at(dest, c, self.cost(q2)));
                    if self.cost(q2) == c1 {
                        assert(q2.last() >= u);
                    }
                } else {
                    assert(r.take(i + 1) =~= p.take(i + 1));
                    assert(r.take(i) =~= p.take(i));
                    assert(self.rivals(r, i, q2));
                }
            }
            p
        }
    }

    /// Wherever a route leads, the router takes the chosen one.
    pub proof fn lemma_route_to_is_chosen(self, dest: NodeId)
        requires
            self.reachable(dest),
        ensures
            self.route_to(dest).is_some(),
            self.is_chosen_route(self.route_to(dest).unwrap(), dest),
    {
        let q = choose|q: Seq<NodeId>| self.is_route(q, dest);
        assert(self.is_trail(q) && q.last() == dest);
        assert(self.costs(dest, self.cost(q)));
        let c = self.lemma_least_cost(dest, self.cost(q));
        let p = self.lemma_chosen_at(dest, c);
    }

    /// The chosen route is the route that the router takes.
    pub proof fn lemma_route_to(self, p: Seq<NodeId>, dest: NodeId)
        requires
            self.is_chosen_route(p, dest),
        ensures
            self.route_to(dest) == Some(p),
    {
        let c = choose|c: Seq<NodeId>| self.is_chosen_route(c, dest);
        self.lemma_chosen_route_unique(c, p, dest);
    }

    /// No trail to an open node costs less than `m`, a lower bound of the
    /// labels of the open nodes.
    proof fn lemma_trail_bound(
        self,
        dist: Seq<Option<u64>>,
        done: Seq<bool>,
        q: Seq<NodeId>,
        m: int,
        k: int,
    )
        requires
            self.wf(),
            dist.len() == 256,
            done.len() == 256,
            dist[self.id as int] == Some(0u64),
            forall|a: NodeId, b: NodeId|
                #[trigger] self.linked(a, b) && done[a as int] && self.may_relay(a)
                    ==> dist[a as int].is_some() && dist[b as int].is_some()
                    && dist[b as int].unwrap() <= dist[a as int].unwrap() + self.weight(a, b),
            self.settled_ok(dist, done),
            self.is_trail(q),
            !done[q.last() as int],
            0 <= k < q.len(),
            forall|j: int| 0 <= j < k ==> done[#[trigger] q[j] as int],
            forall|v: NodeId|
                !done[v as int] && (#[trigger] dist[v as int]).is_some() ==> m
                    <= dist[v as int].unwrap(),
        ensures
            m <= self.cost(q),
        decreases q.len() - k,
    {
        if !done[q[k] as int] {
            if k == 0 {
                assert(dist[q[0] as int].is_some());
            } else {
                let a = q[k - 1];
                let b = q[k];
                assert(done[a as int]);
                assert(self.may_relay(a)) by {
                    if k - 1 > 0 {
                        assert(self.kind_of(q[k - 1]) == Some(NodeKind::Drone));
                    }
                }
                assert(self.step_ok(q, k - 1));
                assert(self.linked(a, b));
                let q1 = q.take(k);
                self.lemma_trail_prefix(q, k);
                assert(q1.last() == a);
                assert(self.is_trail(q1) && done[q1.last() as int]);
                assert(dist[a as int].unwrap() <= self.cost(q1));
                let q2 = q.take(k + 1);
                assert(q2.drop_last() =~= q1);
                assert(self.cost(q2) == self.cost(q1) + self.weight(a, b));
                self.lemma_cost_prefix(q, k + 1);
                assert(dist[b as int].is_some());
            }
        } else {
            self.lemma_trail_bound(dist, done, q, m, k + 1);
        }
    }
}

impl Router {
    /// The open node whose label is least; among equals, the one with the
    /// smallest identifier.
    fn pick_open(dist: &Vec<Option<u64>>, done: &Vec<bool>) -> (res: Option<NodeId>)
        requires
            dist@.len() == 256,
            done@.len() == 256,
        ensures
            match res {
                Some(u) => !done@[u as int] && dist@[u as int].is_some() && forall|v: NodeId|
                    !done@[v as int] && (#[trigger] dist@[v as int]).is_some() && v != u
                        ==> nearer(
                        dist@[u as int].unwrap() as int,
                        u,
                        dist@[v as int].unwrap() as int,
                        v,
                    ),
                None => forall|v: NodeId|
                    !(!done@[v as int] && (#[trigger] dist@[v as int]).is_some()),
            },
    {
        let mut best: Option<NodeId> = None;
        let mut least: u64 = 0;
        let mut i: usize = 0;
        while i < 256
            invariant
                i <= 256,
                dist@.len() == 256,
                done@.len() == 256,
                match best {
                    Some(u) => (u as int) < i && !done@[u as int] && dist@[u as int] == Some(least)
                        && forall|v: NodeId|
                        (v as int) < i && !done@[v as int] && (#[trigger] dist@[v as int]).is_some()
                            && v != u ==> nearer(
                            least as int,
                            u,
                            dist@[v as int].unwrap() as int,
                            v,
                        ),
                    None => forall|v: NodeId|
                        (v as int) < i ==> !(!done@[v as int] && (
                        #[trigger] dist@[v as int]).is_some()),
                },
            decreases 256 - i,
        {
            if !done[i] {
                if let Some(d) = dist[i] {
                    if best.is_none() || d < least {
                        best = Some(i as u8);
                        least = d;
                    }
                }
            }
            i = i + 1;
        }
        best
    }

    /// The route from this node to `dest`: the chosen one among the cheapest,
    /// or the word that no route leads there. Where `dest` is this node the
    /// route is this node alone.
    pub fn get_source_routing_header(&self, dest: NodeId) -> (res: Result<
        RoutingHeader,
        RoutingError,
    >)
        requires
            self.wf(),
        ensures
            match res {
                Ok(h) => self@.route_to(dest) == Some(h@.hops) && self@.is_chosen_route(
                    h@.hops,
                    dest,
                ) && h@ == header_of(h@.hops),
                Err(e) => e == RoutingError::Unreachable(dest) && self@.route_to(dest).is_none()
                    && !self@.reachable(dest),
            },
    {
        let me = self.get_id();
        let mut dist: Vec<Option<u64>> = Vec::new();
        let mut done: Vec<bool> = Vec::new();
        let mut prev: Vec<NodeId> = Vec::new();
        let mut i: usize = 0;
        while i < 256
            invariant
                i <= 256,
                dist@.len() == i,
                done@.len() == i,
                prev@.len() == i,
                forall|j: int| 0 <= j < i ==> (#[trigger] dist@[j]).is_none(),
                forall|j: int| 0 <= j < i ==> !#[trigger] done@[j],
            decreases 256 - i,
        {
            dist.push(None);
            done.push(false);
            prev.push(0);
            i = i + 1;
        }
        dist[me as usize] = Some(0);
        let ghost mut paths: Seq<Seq<NodeId>> = Seq::new(256, |j: int| seq![me]);
        proof {
            lemma_open_count_bound(done@);
            assert(self@.is_trail(seq![me]));
            assert(self@.cost(seq![me]) == 0);
            assert forall|v: NodeId| #[trigger] self@.label_ok(dist@, done@, prev@, paths, v) by {}
            assert forall|q: Seq<NodeId>|
                #[trigger] self@.is_trail(q) && done@[q.last() as int] implies dist@[q.last() as int].is_some()
                && dist@[q.last() as int].unwrap() <= self@.cost(q) by {}
            assert forall|a: NodeId, b: NodeId| #[trigger] closes_before(dist@, done@, a, b) by {}
        }
        loop
            invariant
                self.wf(),
                me == self@.id,
                self@.labels_ok(dist@, done@, prev@, paths),
                self@.relaxed_ok(dist@, done@, me, 256),
                self@.settled_ok(dist@, done@),
                self@.first_ok(dist@, done@, prev@, me, 256),
                ordered_ok(dist@, done@),
                !done@[dest as int],
            decreases open_count(done@),
        {
            let picked = Self::pick_open(&dist, &done);
            let u = match picked {
                None => {
                    proof {
                        assert forall|p: Seq<NodeId>| !#[trigger] self@.is_route(p, dest) by {
                            if self@.is_route(p, dest) {
                                self@.lemma_trail_bound(dist@, done@, p, (self@.cost(p) + 1) as int, 0);
                            }
                        }

                    }
                    return Err(RoutingError::Unreachable(dest));
                },
                Some(u) => u,
            };
            let du: u64 = dist[u as usize].unwrap();
            proof {
                assert forall|q: Seq<NodeId>| #[trigger] self@.is_trail(q) && q.last() == u implies du
                    <= self@.cost(q) by {
                    self@.lemma_trail_bound(dist@, done@, q, du as int, 0);
                }
                assert(self@.label_ok(dist@, done@, prev@, paths, u));
                assert forall|a: NodeId| (#[trigger] done@[a as int]) implies dist@[a as int].is_some()
                    && nearer(dist@[a as int].unwrap() as int, a, du as int, u) by {
                    assert(closes_before(dist@, done@, a, u));
                }
            }
            if u == dest {
                let mut back: Vec<NodeId> = Vec::new();
                back.push(dest);
                let mut cur: NodeId = dest;
                let ghost goal = paths[dest as int];
                assert(self@.label_ok(dist@, done@, prev@, paths, dest));
                while cur != me
                    invariant
                        self.wf(),
                        me == self@.id,
                        self@.labels_ok(dist@, done@, prev@, paths),
                        goal == paths[dest as int],
                        dist@[cur as int].is_some(),
                        1 <= back@.len() <= goal.len(),
                        paths[cur as int].len() == goal.len() - back@.len() + 1,
                        paths[cur as int] == goal.take(goal.len() - back@.len() + 1),
                        forall|j: int|
                            0 <= j < back@.len() ==> #[trigger] back@[j] == goal[goal.len() - 1
                                - j],
                    decreases paths[cur as int].len(),
                {
                    proof {
                        assert(self@.label_ok(dist@, done@, prev@, paths, cur));
                    }
                    let next = prev[cur as usize];
                    proof {
                        assert(self@.label_ok(dist@, done@, prev@, paths, next));
                        let p = paths[cur as int];
                        assert(paths[next as int] == p.drop_last());
                        assert(p.drop_last() =~= goal.take(goal.len() - back@.len()));
                        assert(paths[next as int].last() == next);
                    }
                    back.push(next);
                    cur = next;
                }
                proof {
                    assert(self@.label_ok(dist@, done@, prev@, paths, cur));
                }
                let hops = reversed_ids(&back);
                proof {
                    assert(hops@ =~= goal);
                    assert forall|i: int, q: Seq<NodeId>|
                        1 <= i < goal.len() && #[trigger] self@.rivals(goal, i, q) implies before(
                        self@.cost(goal.take(i)),
                        goal[i - 1],
                        self@.cost(q),
                        q.last(),
                    ) by {
                        self@.lemma_chosen(dist@, done@, prev@, paths, dest, i, q);
                    }
                    self@.lemma_route_to(goal, dest);
                }
                let hop_index: usize = if hops.len() > 1 {
                    1
                } else {
                    0
                };
                return Ok(RoutingHeader { hop_index, hops });
            }
            let ghost done_before = done@;
            done[u as usize] = true;
            proof {
                lemma_close_one(done_before, u as int);
                lemma_open_count_bound(done@);
                assert forall|v: NodeId| #[trigger]
                    self@.label_ok(dist@, done@, prev@, paths, v) by {
                    assert(self@.label_ok(dist@, done_before, prev@, paths, v));
                }
                assert forall|q: Seq<NodeId>|
                    #[trigger] self@.is_trail(q) && done@[q.last() as int] implies dist@[q.last() as int].is_some()
                    && dist@[q.last() as int].unwrap() <= self@.cost(q) by {
                    if q.last() != u {
                        assert(done_before[q.last() as int]);
                    }
                }
                assert(ordered_ok(dist@, done@)) by {
                    assert forall|a: NodeId, b: NodeId| #[trigger]
                        closes_before(dist@, done@, a, b) by {
                        if a != u {
                            assert(closes_before(dist@, done_before, a, b));
                        }
                    }
                }
                assert(earlier_ok(dist@, done@, u, du)) by {
                    assert forall|a: NodeId| (#[trigger] done@[a as int]) && a != u implies dist@[a as int].is_some()
                        && nearer(dist@[a as int].unwrap() as int, a, du as int, u) by {
                        assert(done_before[a as int]);
                    }
                }
                assert(self@.first_ok(dist@, done@, prev@, u, 0)) by {
                    assert forall|a: NodeId, v: NodeId|
                        #[trigger] self@.linked(a, v) && done@[a as int] && self@.may_relay(a) && (a
                            != u || (v as int) < 0) && v != self@.id && dist@[a as int].is_some()
                            && dist@[v as int].is_some() && dist@[a as int].unwrap()
                            + self@.weight(a, v) == dist@[v as int].unwrap() implies dist@[prev@[v as int] as int].is_some()
                        && before(
                        dist@[prev@[v as int] as int].unwrap() as nat,
                        prev@[v as int],
                        dist@[a as int].unwrap() as nat,
                        a,
                    ) by {
                        assert(done_before[a as int]);
                    }
                }
                assert(self@.relaxed_ok(dist@, done@, u, 0)) by {
                    assert forall|a: NodeId, b: NodeId|
                        #[trigger] self@.linked(a, b) && done@[a as int] && self@.may_relay(a) && (a
                            != u || (b as int) < 0) implies dist@[a as int].is_some()
                        && dist@[b as int].is_some() && dist@[b as int].unwrap()
                        <= dist@[a as int].unwrap() + self@.weight(a, b) by {
                        assert(done_before[a as int]);
                    }
                }
            }
            let relay = u == me || self.kind_at(u) == Some(NodeKind::Drone);
            if relay {
                let mut n: usize = 0;
                while n < 256
                    invariant
                        n <= 256,
                        self.wf(),
                        me == self@.id,
                        self@.may_relay(u),
                        done@[u as int],
                        dist@[u as int] == Some(du),
                        !done@[dest as int],
                        self@.labels_ok(dist@, done@, prev@, paths),
                        self@.relaxed_ok(dist@, done@, u, n as int),
                        self@.settled_ok(dist@, done@),
                        self@.first_ok(dist@, done@, prev@, u, n as int),
                        ordered_ok(dist@, done@),
                        earlier_ok(dist@, done@, u, du),
                    decreases 256 - n,
                {
                    let v: NodeId = n as u8;
                    let ghost dist_before = dist@;
                    let ghost prev_before = prev@;
                    let ghost paths_before = paths;
                    proof {
                        assert(self@.label_ok(dist@, done@, prev@, paths, u));
                        lemma_open_count_bound(done@);
                    }
                    if let Some(d) = self.drops_at(u, v) {
                        proof {
                            assert(self@.linked(u, v));
                            assert(u != v);
                            self@.lemma_trail_push(paths[u as int], v);
                            self@.lemma_cost_push(paths[u as int], v);
                        }
                        if !done[n] {
                            let nd: u64 = du + 1 + d as u64;
                            let better = match dist[n] {
                                None => true,
                                Some(old_d) => nd < old_d,
                            };
                            if better {
                                dist[n] = Some(nd);
                                prev[n] = u;
                                proof {
                                    let pu = paths[u as int];
                                    let pv = pu.push(v);
                                    paths = paths.update(v as int, pv);
                                    assert(pv.drop_last() =~= pu);
                                    assert(pv.no_duplicates()) by {
                                        assert forall|a: int, b: int|
                                            0 <= a < pv.len() && 0 <= b < pv.len() && a
                                                != b implies pv[a] != pv[b] by {
                                            if a < pu.len() && b < pu.len() {
                                                assert(pu[a] != pu[b]);
                                            } else if a < pu.len() {
                                                if a < pu.len() - 1 {
                                                    assert(done@[pu[a] as int]);
                                                }
                                            } else {
                                                if b < pu.len() - 1 {
                                                    assert(done@[pu[b] as int]);
                                                }
                                            }
                                        }
                                    }
                                    assert forall|i: int| 0 <= i < pv.len() - 1 implies done@[
                                    #[trigger] pv[i] as int] by {
                                        if i < pu.len() - 1 {
                                            assert(done@[pu[i] as int]);
                                        }
                                    }
                                    assert(self@.label_ok(dist@, done@, prev@, paths, v));
                                    assert forall|x: NodeId| #[trigger]
                                        self@.label_ok(dist@, done@, prev@, paths, x) by {
                                        if x != v {
                                            assert(self@.label_ok(
                                                dist_before,
                                                done@,
                                                prev_before,
                                                paths_before,
                                                x,
                                            ));
                                            if dist_before[x as int].is_some() && x != self@.id {
                                                let px = paths_before[x as int];
                                                assert(done@[px[px.len() - 2] as int]);
                                            }
                                        }
                                    }
                                    assert forall|q: Seq<NodeId>|
                                        #[trigger] self@.is_trail(q) && done@[q.last() as int] implies dist@[q.last() as int].is_some()
                                        && dist@[q.last() as int].unwrap() <= self@.cost(q) by {
                                        assert(dist_before[q.last() as int].is_some());
                                    }
                                }
                            }
                        } else {
                            proof {
                                let pv = paths[u as int].push(v);
                                assert(self@.is_trail(pv) && done@[pv.last() as int]);
                            }
                        }
                    }
                    proof {
                        assert forall|a: NodeId, b: NodeId|
                            #[trigger] self@.linked(a, b) && done@[a as int] && self@.may_relay(a)
                                && (a != u || (b as int) < n + 1) implies dist@[a as int].is_some()
                            && dist@[b as int].is_some() && dist@[b as int].unwrap()
                            <= dist@[a as int].unwrap() + self@.weight(a, b) by {
                            if a != u || (b as int) < n {
                                assert(dist_before[a as int].is_some() && dist_before[b as int].is_some()
                                    && dist_before[b as int].unwrap() <= dist_before[a as int].unwrap()
                                    + self@.weight(a, b));
                            }
                        }
                        assert(ordered_ok(dist@, done@)) by {
                            assert forall|a: NodeId, b: NodeId| #[trigger]
                                closes_before(dist@, done@, a, b) by {
                                assert(closes_before(dist_before, done@, a, b));
                                if done@[a as int] {
                                    assert(dist@[a as int] == dist_before[a as int]);
                                }
                            }
                        }
                        assert(earlier_ok(dist@, done@, u, du)) by {
                            assert forall|a: NodeId|
                                (#[trigger] done@[a as int]) && a != u implies dist@[a as int].is_some()
                                && nearer(dist@[a as int].unwrap() as int, a, du as int, u) by {
                                assert(dist@[a as int] == dist_before[a as int]);
                            }
                        }
                        assert(self@.first_ok(dist@, done@, prev@, u, n + 1)) by {
                            assert forall|a: NodeId, x: NodeId|
                                #[trigger] self@.linked(a, x) && done@[a as int] && self@.may_relay(
                                    a,
                                ) && (a != u || (x as int) < n + 1) && x != self@.id
                                    && dist@[a as int].is_some() && dist@[x as int].is_some()
                                    && dist@[a as int].unwrap() + self@.weight(a, x)
                                    == dist@[x as int].unwrap() implies dist@[prev@[x as int] as int].is_some()
                                && before(
                                dist@[prev@[x as int] as int].unwrap() as nat,
                                prev@[x as int],
                                dist@[a as int].unwrap() as nat,
                                a,
                            ) by {
                                assert(dist@[a as int] == dist_before[a as int]);
                                assert(self@.label_ok(dist@, done@, prev@, paths, x));
                                let px = paths[x as int];
                                assert(done@[px[px.len() - 2] as int]);
                                assert(dist@[prev@[x as int] as int] == dist_before[prev@[x as int] as int]);
                                if x != v {
                                    assert(dist@[x as int] == dist_before[x as int]);
                                    assert(prev@[x as int] == prev_before[x as int]);
                                } else if a != u {
                                    // the link from `a` was used before: the
                                    // label of `v` did not get better now
                                    assert(dist@[x as int] == dist_before[x as int]);
                                    assert(prev@[x as int] == prev_before[x as int]);
                                } else if done@[v as int] {
                                    assert(dist@[v as int].unwrap() <= du);
                                } else if prev@[v as int] != u {
                                    assert(dist@[x as int] == dist_before[x as int]);
                                }
                            }
                        }
                    }
                    n = n + 1;
                }
            }
            proof {
                assert(self@.relaxed_ok(dist@, done@, me, 256)) by {
                    assert forall|a: NodeId, b: NodeId|
                        #[trigger] self@.linked(a, b) && done@[a as int] && self@.may_relay(a) && (a
                            != me || (b as int) < 256) implies dist@[a as int].is_some()
                        && dist@[b as int].is_some() && dist@[b as int].unwrap()
                        <= dist@[a as int].unwrap() + self@.weight(a, b) by {
                        if relay {
                            assert(self@.relaxed_ok(dist@, done@, u, 256));
                        } else {
                            assert(self@.relaxed_ok(dist@, done@, u, 0));
                        }
                    }
                }
                assert(self@.first_ok(dist@, done@, prev@, me, 256)) by {
                    assert forall|a: NodeId, v: NodeId|
                        #[trigger] self@.linked(a, v) && done@[a as int] && self@.may_relay(a) && (a
                            != me || (v as int) < 256) && v != self@.id && dist@[a as int].is_some()
                            && dist@[v as int].is_some() && dist@[a as int].unwrap()
                            + self@.weight(a, v) == dist@[v as int].unwrap() implies dist@[prev@[v as int] as int].is_some()
                        && before(
                        dist@[prev@[v as int] as int].unwrap() as nat,
                        prev@[v as int],
                        dist@[a as int].unwrap() as nat,
                        a,
                    ) by {
                        if relay {
                            assert(self@.first_ok(dist@, done@, prev@, u, 256));
                        } else {
                            assert(self@.first_ok(dist@, done@, prev@, u, 0));
                        }
                    }
                }
            }
        }
    }
}

} // verus!
