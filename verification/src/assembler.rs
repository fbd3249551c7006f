//! Cutting a serialized message into fragments, and putting the fragments of
//! each session together again, whatever order they arrive in and however
//! often one of them is repeated.

use vstd::prelude::*;
use crate::assoc::{
    as_map, has_key, keys_unique, lemma_absent_from_map, lemma_empty, lemma_insert_at,
    lemma_lookup, lemma_push, lemma_update, position_of,
};
use crate::codec::{decode, decode_message, encodable, encode, encode_message, lemma_decode_encode};
use crate::message::{Message, MessageView};
use crate::packet::{Fragment, FragmentView, NodeId};

verus! {

/// The number of bytes that one fragment holds at most.
pub const FRAGMENT_SIZE: usize = 128;

/// (`session_id`, `source_id`)
pub type SessionKey = (u64, NodeId);

/// The number of fragments of a message of `len` bytes; an empty message
/// still takes one.
pub open spec fn fragment_count(len: nat) -> nat {
    if len == 0 {
        1
    } else {
        ((len + 127) / 128) as nat
    }
}

/// Where fragment `i` of a message of `len` bytes starts.
pub open spec fn chunk_start(len: nat, i: int) -> int {
    if i * 128 <= len {
        i * 128
    } else {
        len as int
    }
}

/// The bytes of fragment `i` of the message.
pub open spec fn chunk(bytes: Seq<u8>, i: int) -> Seq<u8> {
    bytes.subrange(chunk_start(bytes.len(), i), chunk_start(bytes.len(), i + 1))
}

/// Fragment `i` of the message.
pub open spec fn fragment_at(bytes: Seq<u8>, i: int) -> FragmentView {
    FragmentView {
        fragment_index: i as u64,
        total_n_fragments: fragment_count(bytes.len()) as u64,
        data: chunk(bytes, i),
    }
}

/// What the assembler holds of one session.
pub enum SessionView {
    /// The fragments that arrived so far, by index, of `total` expected.
    Open { total: u64, parts: Map<u64, Seq<u8>> },
    /// The message was handed out.
    Done,
}

/// Every fragment index below `total` has its part.
pub open spec fn complete(parts: Map<u64, Seq<u8>>, total: u64) -> bool {
    forall|i: u64| i < total ==> #[trigger] parts.dom().contains(i)
}

/// The first `n` parts, one after the other.
pub open spec fn joined(parts: Map<u64, Seq<u8>>, n: nat) -> Seq<u8>
    decreases n,
{
    if n == 0 {
        Seq::empty()
    } else {
        joined(parts, (n - 1) as nat) + parts[(n - 1) as u64]
    }
}

/// What a map holds under a key, if anything.
pub open spec fn lookup<K, V>(m: Map<K, V>, k: K) -> Option<V> {
    if m.dom().contains(k) {
        Some(m[k])
    } else {
        None
    }
}

/// The fragment brings a part that the session lacks: its index is below its
/// total, the session is not finished, expects the same total and has no part
/// under that index yet.
pub open spec fn accepts(state: Option<SessionView>, f: FragmentView) -> bool {
    f.fragment_index < f.total_n_fragments && match state {
        None => true,
        Some(SessionView::Open { total, parts }) => total == f.total_n_fragments
            && !parts.dom().contains(f.fragment_index),
        Some(SessionView::Done) => false,
    }
}

/// The parts of the session with that of the fragment added.
pub open spec fn parts_with(state: Option<SessionView>, f: FragmentView) -> Map<u64, Seq<u8>> {
    match state {
        Some(SessionView::Open { total, parts }) => parts.insert(f.fragment_index, f.data),
        _ => Map::<u64, Seq<u8>>::empty().insert(f.fragment_index, f.data),
    }
}

/// The session after the fragment: unchanged where the fragment is not
/// accepted, finished where it brings the last part.
pub open spec fn next_state(state: Option<SessionView>, f: FragmentView) -> Option<SessionView> {
    if !accepts(state, f) {
        state
    } else if complete(parts_with(state, f), f.total_n_fragments) {
        Some(SessionView::Done)
    } else {
        Some(SessionView::Open { total: f.total_n_fragments, parts: parts_with(state, f) })
    }
}

/// The message that the fragment completes, if it completes one.
pub open spec fn output(state: Option<SessionView>, f: FragmentView) -> Option<Seq<u8>> {
    if accepts(state, f) && complete(parts_with(state, f), f.total_n_fragments) {
        Some(joined(parts_with(state, f), f.total_n_fragments as nat))
    } else {
        None
    }
}

/// The sessions with the one under `key` set to `state`.
pub open spec fn with_session(
    sessions: Map<SessionKey, SessionView>,
    key: SessionKey,
    state: Option<SessionView>,
) -> Map<SessionKey, SessionView> {
    match state {
        Some(s) => sessions.insert(key, s),
        None => sessions,
    }
}

/// The session after each of the fragments in turn, and the messages handed
/// out on the way.
pub open spec fn feed(state: Option<SessionView>, frags: Seq<FragmentView>) -> (
    Option<SessionView>,
    Seq<Seq<u8>>,
)
    decreases frags.len(),
{
    if frags.len() == 0 {
        (state, Seq::empty())
    } else {
        let rest = feed(next_state(state, frags[0]), frags.drop_first());
        (
            rest.0,
            match output(state, frags[0]) {
                Some(bytes) => seq![bytes] + rest.1,
                None => rest.1,
            },
        )
    }
}

/// The fragments of the message that `order` names, in that order.
pub open spec fn picked(bytes: Seq<u8>, order: Seq<int>) -> Seq<FragmentView> {
    Seq::new(order.len(), |k: int| fragment_at(bytes, order[k]))
}

/// The parts of the message whose indices are in `seen`.
pub open spec fn parts_of(bytes: Seq<u8>, seen: Set<int>) -> Map<u64, Seq<u8>> {
    Map::new(|i: u64| seen.contains(i as int), |i: u64| chunk(bytes, i as int))
}

/// Every fragment index of a message of `count` fragments is in `seen` or occurs in `order`.
pub open spec fn covers(count: nat, seen: Set<int>, order: Seq<int>) -> bool {
    forall|j: int| 0 <= j < count ==> seen.contains(j) || #[trigger] order.contains(j)
}

proof fn lemma_chunk_bounds(len: nat, i: int)
    requires
        0 <= i,
    ensures
        0 <= chunk_start(len, i) <= chunk_start(len, i + 1) <= len,
        i >= fragment_count(len) ==> chunk_start(len, i) == len,
{
}

proof fn lemma_joined_chunks(bytes: Seq<u8>, parts: Map<u64, Seq<u8>>, n: nat)
    requires
        n <= fragment_count(bytes.len()) <= u64::MAX,
        forall|i: u64| i < n ==> #[trigger] parts.dom().contains(i),
        forall|i: u64| i < n ==> (#[trigger] parts[i]) == chunk(bytes, i as int),
    ensures
        joined(parts, n) == bytes.subrange(0, chunk_start(bytes.len(), n as int)),
    decreases n,
{
    if n == 0 {
        assert(joined(parts, n) =~= bytes.subrange(0, 0));
    } else {
        lemma_joined_chunks(bytes, parts, (n - 1) as nat);
        lemma_chunk_bounds(bytes.len(), n - 1);
        assert(parts[(n - 1) as u64] == chunk(bytes, (n - 1) as int));
        assert(joined(parts, n) =~= bytes.subrange(0, chunk_start(bytes.len(), n as int)));
    }
}

/// The fragments of a message, joined, are the message.
pub proof fn lemma_joined_all(bytes: Seq<u8>, parts: Map<u64, Seq<u8>>)
    requires
        fragment_count(bytes.len()) <= u64::MAX,
        forall|i: u64| i < fragment_count(bytes.len()) ==> #[trigger] parts.dom().contains(i),
        forall|i: u64|
            i < fragment_count(bytes.len()) ==> (#[trigger] parts[i]) == chunk(bytes, i as int),
    ensures
        joined(parts, fragment_count(bytes.len())) == bytes,
{
    let n = fragment_count(bytes.len());
    lemma_joined_chunks(bytes, parts, n);
    lemma_chunk_bounds(bytes.len(), n as int);
    assert(bytes.subrange(0, bytes.len() as int) =~= bytes);
}

/// A finished session hands nothing out any more.
pub proof fn lemma_feed_done(frags: Seq<FragmentView>)
    ensures
        feed(Some(SessionView::Done), frags) == (
            Some(SessionView::Done),
            Seq::<Seq<u8>>::empty(),
        ),
    decreases frags.len(),
{
    if frags.len() > 0 {
        lemma_feed_done(frags.drop_first());
    }
}

proof fn lemma_feed_any_order(
    bytes: Seq<u8>,
    state: Option<SessionView>,
    seen: Set<int>,
    order: Seq<int>,
)
    requires
        fragment_count(bytes.len()) <= u64::MAX,
        forall|k: int| 0 <= k < order.len() ==> 0 <= #[trigger] order[k] < fragment_count(
            bytes.len(),
        ),
        forall|j: int| seen.contains(j) ==> 0 <= j < fragment_count(bytes.len()),
        exists|j: int| 0 <= j < fragment_count(bytes.len()) && !seen.contains(j),
        (state.is_none() && seen == Set::<int>::empty()) || state == Some(
            SessionView::Open {
                total: fragment_count(bytes.len()) as u64,
                parts: parts_of(bytes, seen),
            },
        ),
    ensures
        feed(state, picked(bytes, order)).1 == if covers(
            fragment_count(bytes.len()),
            seen,
            order,
        ) {
            seq![bytes]
        } else {
            Seq::<Seq<u8>>::empty()
        },
    decreases order.len(),
{
    let count = fragment_count(bytes.len());
    let frags = picked(bytes, order);
    if order.len() == 0 {
        let j = choose|j: int| 0 <= j < count && !seen.contains(j);
        assert(!order.contains(j));
    } else {
        let i = order[0];
        let f = frags[0];
        let rest = order.drop_first();
        assert(frags.drop_first() =~= picked(bytes, rest));
        assert(f == fragment_at(bytes, i));
        assert forall|j: int| order.contains(j) <==> (j == i || rest.contains(j)) by {
            if order.contains(j) {
                let k = choose|k: int| 0 <= k < order.len() && order[k] == j;
                if k > 0 {
                    assert(rest[k - 1] == j);
                }
            }
            if rest.contains(j) {
                let k = choose|k: int| 0 <= k < rest.len() && rest[k] == j;
                assert(order[k + 1] == j);
            }
            if j == i {
                assert(order[0] == j);
            }
        }
        if state.is_none() {
            assert(parts_of(bytes, seen) =~= Map::<u64, Seq<u8>>::empty());
        }
        if seen.contains(i) {
            assert(!accepts(state, f));
            lemma_feed_any_order(bytes, state, seen, rest);
            assert(covers(count, seen, order) <==> covers(count, seen, rest)) by {
                if covers(count, seen, order) {
                    assert forall|j: int| 0 <= j < count implies seen.contains(j)
                        || #[trigger] rest.contains(j) by {
                        assert(seen.contains(j) || order.contains(j));
                    }
                }
                if covers(count, seen, rest) {
                    assert forall|j: int| 0 <= j < count implies seen.contains(j)
                        || #[trigger] order.contains(j) by {
                        assert(seen.contains(j) || rest.contains(j));
                    }
                }
            }
        } else {
            let more = seen.insert(i);
            assert(accepts(state, f));
            assert(parts_with(state, f) =~= parts_of(bytes, more));
            let parts = parts_of(bytes, more);
            if complete(parts, count as u64) {
                lemma_joined_all(bytes, parts);
                lemma_feed_done(picked(bytes, rest));
                assert(seq![bytes] + Seq::<Seq<u8>>::empty() =~= seq![bytes]);
                assert(covers(count, seen, order)) by {
                    assert forall|j: int| 0 <= j < count implies seen.contains(j)
                        || #[trigger] order.contains(j) by {
                        assert(parts.dom().contains(j as u64));
                    }
                }
            } else {
                assert(exists|j: int| 0 <= j < count && !more.contains(j)) by {
                    let w = choose|w: u64| w < count as u64 && !parts.dom().contains(w);
                    assert(0 <= w as int && (w as int) < count && !more.contains(w as int));
                }
                lemma_feed_any_order(bytes, next_state(state, f), more, rest);
                assert(covers(count, seen, order) <==> covers(count, more, rest)) by {
                    if covers(count, seen, order) {
                        assert forall|j: int| 0 <= j < count implies more.contains(j)
                            || #[trigger] rest.contains(j) by {
                            assert(seen.contains(j) || order.contains(j));
                        }
                    }
                    if covers(count, more, rest) {
                        assert forall|j: int| 0 <= j < count implies seen.contains(j)
                            || #[trigger] order.contains(j) by {
                            assert(more.contains(j) || rest.contains(j));
                        }
                    }
                }
            }
        }
    }
}

/// The fragments of a message, taken in by a new session in any order and
/// with any repeats, give the message back exactly once, and only when each
/// of them has come at least once.
pub proof fn lemma_reassembly_any_order(bytes: Seq<u8>, order: Seq<int>)
    requires
        fragment_count(bytes.len()) <= u64::MAX,
        forall|k: int| 0 <= k < order.len() ==> 0 <= #[trigger] order[k] < fragment_count(
            bytes.len(),
        ),
    ensures
        feed(None, picked(bytes, order)).1 == if covers(
            fragment_count(bytes.len()),
            Set::<int>::empty(),
            order,
        ) {
            seq![bytes]
        } else {
            Seq::<Seq<u8>>::empty()
        },
{
    assert(0 <= 0 < fragment_count(bytes.len()) && !Set::<int>::empty().contains(0));
    lemma_feed_any_order(bytes, None, Set::<int>::empty(), order);
}

/// A message is handed out only when every fragment index below the total,
/// and no other, has its part; it is those parts in the order of their indices.
pub proof fn lemma_output_sources(state: Option<SessionView>, f: FragmentView)
    requires
        match state {
            Some(SessionView::Open { total, parts }) => forall|i: u64|
                parts.dom().contains(i) ==> i < total,
            _ => true,
        },
        output(state, f).is_some(),
    ensures
        forall|i: u64|
            #[trigger] parts_with(state, f).dom().contains(i) <==> i < f.total_n_fragments,
        output(state, f) == Some(joined(parts_with(state, f), f.total_n_fragments as nat)),
{
}

/// The message that a fragment completes, if it completes one that can be read.
pub open spec fn message_output(state: Option<SessionView>, f: FragmentView) -> Option<MessageView> {
    match output(state, f) {
        Some(bytes) => decode(bytes),
        None => None,
    }
}

/// The fragments of a message, taken in by a new session in any order and
/// with any repeats, give the bytes of the message exactly once, when each of
/// them has come, and those bytes read as the message.
pub proof fn lemma_message_any_order(m: MessageView, order: Seq<int>)
    requires
        encodable(m),
        fragment_count(encode(m).len()) <= u64::MAX,
        forall|k: int| 0 <= k < order.len() ==> 0 <= #[trigger] order[k] < fragment_count(
            encode(m).len(),
        ),
        covers(fragment_count(encode(m).len()), Set::<int>::empty(), order),
    ensures
        feed(None, picked(encode(m), order)).1 == seq![encode(m)],
        decode(encode(m)) == Some(m),
{
    lemma_reassembly_any_order(encode(m), order);
    lemma_decode_encode(m);
}

/// The indices that are in `seen` or occur in `order`.
pub open spec fn seen_with(seen: Set<int>, order: Seq<int>) -> Set<int> {
    Set::new(|j: int| seen.contains(j) || order.contains(j))
}

/// The session that holds the parts of the message with the indices in
/// `seen`, of which some are missing.
pub open spec fn open_with(bytes: Seq<u8>, seen: Set<int>) -> Option<SessionView> {
    Some(
        SessionView::Open {
            total: fragment_count(bytes.len()) as u64,
            parts: parts_of(bytes, seen),
        },
    )
}

proof fn lemma_contains_first_or_rest(order: Seq<int>, j: int)
    requires
        order.len() > 0,
    ensures
        order.contains(j) <==> (j == order[0] || order.drop_first().contains(j)),
{
    let rest = order.drop_first();
    if order.contains(j) {
        let k = choose|k: int| 0 <= k < order.len() && order[k] == j;
        if k > 0 {
            assert(rest[k - 1] == j);
        }
    }
    if rest.contains(j) {
        let k = choose|k: int| 0 <= k < rest.len() && rest[k] == j;
        assert(order[k + 1] == j);
    }
    if j == order[0] {
        assert(order[0] == j);
    }
}

proof fn lemma_feed_state(
    bytes: Seq<u8>,
    state: Option<SessionView>,
    seen: Set<int>,
    order: Seq<int>,
)
    requires
        fragment_count(bytes.len()) <= u64::MAX,
        forall|k: int| 0 <= k < order.len() ==> 0 <= #[trigger] order[k] < fragment_count(
            bytes.len(),
        ),
        forall|j: int| seen.contains(j) ==> 0 <= j < fragment_count(bytes.len()),
        exists|j: int| 0 <= j < fragment_count(bytes.len()) && !seen.contains(j),
        (state.is_none() && seen == Set::<int>::empty()) || state == open_with(bytes, seen),
    ensures
        feed(state, picked(bytes, order)).0 == if covers(
            fragment_count(bytes.len()),
            seen,
            order,
        ) {
            Some(SessionView::Done)
        } else if state.is_none() && order.len() == 0 {
            None
        } else {
            open_with(bytes, seen_with(seen, order))
        },
    decreases order.len(),
{
    let count = fragment_count(bytes.len());
    let frags = picked(bytes, order);
    if order.len() == 0 {
        let j = choose|j: int| 0 <= j < count && !seen.contains(j);
        assert(!order.contains(j));
        assert(seen_with(seen, order) =~= seen);
    } else {
        let i = order[0];
        let f = frags[0];
        let rest = order.drop_first();
        assert(frags.drop_first() =~= picked(bytes, rest));
        assert(f == fragment_at(bytes, i));
        assert forall|j: int| order.contains(j) <==> (j == i || rest.contains(j)) by {
            lemma_contains_first_or_rest(order, j);
        }
        if state.is_none() {
            assert(parts_of(bytes, seen) =~= Map::<u64, Seq<u8>>::empty());
        }
        if seen.contains(i) {
            assert(!accepts(state, f));
            lemma_feed_state(bytes, state, seen, rest);
            assert(seen_with(seen, order) =~= seen_with(seen, rest));
            assert(covers(count, seen, order) <==> covers(count, seen, rest)) by {
                if covers(count, seen, order) {
                    assert forall|j: int| 0 <= j < count implies seen.contains(j)
                        || #[trigger] rest.contains(j) by {
                        assert(seen.contains(j) || order.contains(j));
                    }
                }
                if covers(count, seen, rest) {
                    assert forall|j: int| 0 <= j < count implies seen.contains(j)
                        || #[trigger] order.contains(j) by {
                        assert(seen.contains(j) || rest.contains(j));
                    }
                }
            }
        } else {
            let more = seen.insert(i);
            assert(accepts(state, f));
            assert(parts_with(state, f) =~= parts_of(bytes, more));
            let parts = parts_of(bytes, more);
            if complete(parts, count as u64) {
                lemma_feed_done(picked(bytes, rest));
                assert(covers(count, seen, order)) by {
                    assert forall|j: int| 0 <= j < count implies seen.contains(j)
                        || #[trigger] order.contains(j) by {
                        assert(parts.dom().contains(j as u64));
                    }
                }
            } else {
                assert(exists|j: int| 0 <= j < count && !more.contains(j)) by {
                    let w = choose|w: u64| w < count as u64 && !parts.dom().contains(w);
                    assert(0 <= w as int && (w as int) < count && !more.contains(w as int));
                }
                lemma_feed_state(bytes, next_state(state, f), more, rest);
                assert(seen_with(seen, order) =~= seen_with(more, rest));
                assert(covers(count, seen, order) <==> covers(count, more, rest)) by {
                    if covers(count, seen, order) {
                        assert forall|j: int| 0 <= j < count implies more.contains(j)
                            || #[trigger] rest.contains(j) by {
                            assert(seen.contains(j) || order.contains(j));
                        }
                    }
                    if covers(count, more, rest) {
                        assert forall|j: int| 0 <= j < count implies seen.contains(j)
                            || #[trigger] order.contains(j) by {
                            assert(more.contains(j) || rest.contains(j));
                        }
                    }
                }
            }
        }
    }
}

/// Of the fragments of a message that a new session takes in, in any order
/// and with any repeats, exactly the one that brings the last missing part
/// hands the message out: the call for entry `k` of `order` gives the bytes
/// of the message where the first `k + 1` entries name every fragment and the
/// first `k` do not, and nothing in any other case.
pub proof fn lemma_output_at(bytes: Seq<u8>, order: Seq<int>, k: int)
    requires
        fragment_count(bytes.len()) <= u64::MAX,
        forall|a: int| 0 <= a < order.len() ==> 0 <= #[trigger] order[a] < fragment_count(
            bytes.len(),
        ),
        0 <= k < order.len(),
    ensures
        output(feed(None, picked(bytes, order.take(k))).0, fragment_at(bytes, order[k])) == if covers(
            fragment_count(bytes.len()),
            Set::<int>::empty(),
            order.take(k + 1),
        ) && !covers(fragment_count(bytes.len()), Set::<int>::empty(), order.take(k)) {
            Some(bytes)
        } else {
            None
        },
{
    let count = fragment_count(bytes.len());
    let none = Set::<int>::empty();
    let pre = order.take(k);
    let upto = order.take(k + 1);
    let i = order[k];
    let f = fragment_at(bytes, i);
    let state = feed(None, picked(bytes, pre)).0;
    assert(0 <= 0 < count && !none.contains(0));
    assert forall|a: int| 0 <= a < pre.len() implies 0 <= #[trigger] pre[a] < count by {
        assert(pre[a] == order[a]);
    }
    lemma_feed_state(bytes, None, none, pre);
    assert forall|j: int| upto.contains(j) <==> (pre.contains(j) || j == i) by {
        if upto.contains(j) {
            let a = choose|a: int| 0 <= a < upto.len() && upto[a] == j;
            if a < k {
                assert(pre[a] == j);
            }
        }
        if pre.contains(j) {
            let a = choose|a: int| 0 <= a < pre.len() && pre[a] == j;
            assert(upto[a] == j);
        }
        if j == i {
            assert(upto[k] == j);
        }
    }
    if covers(count, none, pre) {
        assert(state == Some(SessionView::Done));
    } else {
        let seen = seen_with(none, pre);
        if k == 0 {
            assert(state.is_none());
            assert(pre.len() == 0);
        } else {
            assert(state == open_with(bytes, seen));
        }
        if pre.contains(i) {
            assert(!accepts(state, f));
            assert(!covers(count, none, upto)) by {
                if covers(count, none, upto) {
                    assert forall|j: int| 0 <= j < count implies none.contains(j)
                        || #[trigger] pre.contains(j) by {
                        assert(none.contains(j) || upto.contains(j));
                    }
                }
            }
        } else {
            let more = seen.insert(i);
            assert(accepts(state, f));
            assert(parts_with(state, f) =~= parts_of(bytes, more)) by {
                if k == 0 {
                    assert(seen =~= none);
                }
            }
            let parts = parts_of(bytes, more);
            assert(complete(parts, count as u64) <==> covers(count, none, upto)) by {
                if complete(parts, count as u64) {
                    assert forall|j: int| 0 <= j < count implies none.contains(j)
                        || #[trigger] upto.contains(j) by {
                        assert(parts.dom().contains(j as u64));
                    }
                }
                if covers(count, none, upto) {
                    assert forall|w: u64| w < count as u64 implies #[trigger] parts.dom().contains(
                        w,
                    ) by {
                        assert(none.contains(w as int) || upto.contains(w as int));
                    }
                }
            }
            if complete(parts, count as u64) {
                lemma_joined_all(bytes, parts);
            }
        }
    }
}

/// The same for a message: whatever the order and the repeats, the call that
/// brings the last missing fragment hands out the message that was cut, and
/// no other call hands out anything. Two deliveries of the fragments of one
/// message therefore hand out the same message, each exactly once.
pub proof fn lemma_message_output_at(m: MessageView, order: Seq<int>, k: int)
    requires
        encodable(m),
        fragment_count(encode(m).len()) <= u64::MAX,
        forall|a: int| 0 <= a < order.len() ==> 0 <= #[trigger] order[a] < fragment_count(
            encode(m).len(),
        ),
        0 <= k < order.len(),
    ensures
        message_output(
            feed(None, picked(encode(m), order.take(k))).0,
            fragment_at(encode(m), order[k]),
        ) == if covers(fragment_count(encode(m).len()), Set::<int>::empty(), order.take(k + 1))
            && !covers(fragment_count(encode(m).len()), Set::<int>::empty(), order.take(k)) {
            Some(m)
        } else {
            None
        },
{
    lemma_output_at(encode(m), order, k);
    lemma_decode_encode(m);
}

/// Cuts the bytes into fragments of at most `FRAGMENT_SIZE` bytes.
pub fn fragment_bytes(bytes: &Vec<u8>) -> (res: Vec<Fragment>)
    ensures
        res@.len() == fragment_count(bytes@.len()),
        forall|i: int| 0 <= i < res@.len() ==> (#[trigger] res@[i])@ == fragment_at(bytes@, i),
{
    let len = bytes.len();
    let count: usize = if len == 0 {
        1
    } else {
        (len - 1) / 128 + 1
    };
    assert(count == fragment_count(len as nat));
    let mut res: Vec<Fragment> = Vec::new();
    let mut i: usize = 0;
    while i < count
        invariant
            i <= count,
            len == bytes@.len(),
            count == fragment_count(len as nat),
            res@.len() == i,
            forall|j: int| 0 <= j < i ==> (#[trigger] res@[j])@ == fragment_at(bytes@, j),
        decreases count - i,
    {
        let start: usize = if i * 128 <= len {
            i * 128
        } else {
            len
        };
        let end: usize = if len - start >= 128 {
            start + 128
        } else {
            len
        };
        assert(start == chunk_start(len as nat, i as int));
        assert(end == chunk_start(len as nat, i + 1));
        let mut data: Vec<u8> = Vec::new();
        let mut k: usize = start;
        while k < end
            invariant
                start <= k <= end <= len,
                len == bytes@.len(),
                data@ == bytes@.subrange(start as int, k as int),
            decreases end - k,
        {
            data.push(bytes[k]);
            k = k + 1;
            assert(data@ =~= bytes@.subrange(start as int, k as int));
        }
        res.push(Fragment { fragment_index: i as u64, total_n_fragments: count as u64, data });
        i = i + 1;
    }
    res
}

struct Piece {
    index: u64,
    data: Vec<u8>,
}

struct Session {
    session_id: u64,
    source: NodeId,
    total: u64,
    parts: Vec<Piece>,
    done: bool,
}

spec fn piece_pairs(parts: Seq<Piece>) -> Seq<(u64, Seq<u8>)> {
    Seq::new(parts.len(), |i: int| (parts[i].index, parts[i].data@))
}

spec fn ascending(parts: Seq<Piece>) -> bool {
    forall|i: int, j: int| 0 <= i < j < parts.len() ==> parts[i].index < parts[j].index
}

proof fn lemma_ascending_unique(parts: Seq<Piece>)
    requires
        ascending(parts),
    ensures
        keys_unique(piece_pairs(parts)),
{
    let s = piece_pairs(parts);
    assert forall|i: int, j: int| 0 <= i < s.len() && 0 <= j < s.len() && i != j implies s[i].0
        != s[j].0 by {
        if i < j {
            assert(parts[i].index < parts[j].index);
        } else {
            assert(parts[j].index < parts[i].index);
        }
    }
}

/// In an ascending list the entry at position `j` has an index of `j` at least.
proof fn lemma_ascending_floor(parts: Seq<Piece>, j: int)
    requires
        ascending(parts),
        0 <= j < parts.len(),
    ensures
        parts[j].index >= j,
    decreases j,
{
    if j > 0 {
        lemma_ascending_floor(parts, j - 1);
        assert(parts[j - 1].index < parts[j].index);
    }
}

/// In an ascending list of `total` entries below `total` the entry at position
/// `j` has index `j`.
proof fn lemma_ascending_full(parts: Seq<Piece>, total: u64, j: int)
    requires
        ascending(parts),
        parts.len() == total,
        forall|i: int| 0 <= i < parts.len() ==> (#[trigger] parts[i]).index < total,
        0 <= j < parts.len(),
    ensures
        parts[j].index == j,
    decreases parts.len() - j,
{
    lemma_ascending_floor(parts, j);
    if j < parts.len() - 1 {
        lemma_ascending_full(parts, total, j + 1);
        assert(parts[j].index < parts[j + 1].index);
    } else {
        assert(parts[j].index < total);
    }
}

/// Where every index below `total` has an entry, the first `j + 1` entries of
/// an ascending list have the indices `0` to `j`.
proof fn lemma_complete_prefix(parts: Seq<Piece>, total: u64, j: int)
    requires
        ascending(parts),
        complete(as_map(piece_pairs(parts)), total),
        0 <= j < total,
    ensures
        j < parts.len(),
        parts[j].index == j,
    decreases j,
{
    let s = piece_pairs(parts);
    if j > 0 {
        lemma_complete_prefix(parts, total, j - 1);
    }
    assert(as_map(s).dom().contains(j as u64));
    let p = position_of(s, j as u64);
    assert(0 <= p < parts.len() && parts[p].index == j as u64);
    lemma_ascending_floor(parts, p);
    if p < j {
        // positions below j hold indices below j
        lemma_ascending_floor(parts, j - 1);
        if p < j - 1 {
            assert(parts[p].index < parts[j - 1].index);
        }
        assert(parts[j - 1].index == j - 1);
    }
}

impl Session {
    spec fn key(&self) -> SessionKey {
        (self.session_id, self.source)
    }

    spec fn parts_map(&self) -> Map<u64, Seq<u8>> {
        as_map(piece_pairs(self.parts@))
    }

    spec fn state(&self) -> SessionView {
        if self.done {
            SessionView::Done
        } else {
            SessionView::Open { total: self.total, parts: self.parts_map() }
        }
    }

    spec fn wf(&self) -> bool {
        !self.done ==> {
            &&& ascending(self.parts@)
            &&& forall|i: int| 0 <= i < self.parts@.len() ==> (#[trigger] self.parts@[i]).index
                < self.total
            &&& self.parts@.len() < self.total
        }
    }
}

/// The message of an ascending, complete list of parts.
fn join_parts(parts: &Vec<Piece>, total: u64) -> (res: Vec<u8>)
    requires
        ascending(parts@),
        parts@.len() == total,
        forall|i: int| 0 <= i < parts@.len() ==> (#[trigger] parts@[i]).index < total,
    ensures
        res@ == joined(as_map(piece_pairs(parts@)), total as nat),
{
    let ghost m = as_map(piece_pairs(parts@));
    let mut res: Vec<u8> = Vec::new();
    let mut j: usize = 0;
    proof {
        lemma_ascending_unique(parts@);
    }
    while j < parts.len()
        invariant
            j <= parts@.len(),
            parts@.len() == total,
            ascending(parts@),
            keys_unique(piece_pairs(parts@)),
            forall|i: int| 0 <= i < parts@.len() ==> (#[trigger] parts@[i]).index < total,
            m == as_map(piece_pairs(parts@)),
            res@ == joined(m, j as nat),
        decreases parts@.len() - j,
    {
        proof {
            lemma_ascending_full(parts@, total, j as int);
            lemma_lookup(piece_pairs(parts@), j as int);
            assert(m[j as u64] == parts@[j as int].data@);
        }
        let piece = &parts[j];
        let ghost before = res@;
        let mut k: usize = 0;
        while k < piece.data.len()
            invariant
                k <= piece.data@.len(),
                res@ == before + piece.data@.take(k as int),
            decreases piece.data@.len() - k,
        {
            res.push(piece.data[k]);
            k = k + 1;
            assert(res@ =~= before + piece.data@.take(k as int));
        }
        assert(piece.data@.take(piece.data@.len() as int) =~= piece.data@);
        j = j + 1;
    }
    res
}

/// Puts the fragments of each session together.
pub struct Assembler {
    sessions: Vec<Session>,
}

impl Assembler {
    closed spec fn pairs(&self) -> Seq<(SessionKey, SessionView)> {
        Seq::new(self.sessions@.len(), |i: int| (self.sessions@[i].key(), self.sessions@[i].state()))
    }

    /// No session is held twice, and an open session lacks a part.
    pub closed spec fn wf(&self) -> bool {
        &&& keys_unique(self.pairs())
        &&& forall|i: int| 0 <= i < self.sessions@.len() ==> (#[trigger] self.sessions@[i]).wf()
    }

    /// The sessions by session and source.
    pub closed spec fn view(&self) -> Map<SessionKey, SessionView> {
        as_map(self.pairs())
    }

    /// An open session holds parts below its total only, and not all of them.
    pub proof fn lemma_open_sessions(&self, key: SessionKey)
        requires
            self.wf(),
            self@.dom().contains(key),
        ensures
            match self@[key] {
                SessionView::Open { total, parts } => !complete(parts, total) && forall|i: u64|
                    parts.dom().contains(i) ==> i < total,
                SessionView::Done => true,
            },
    {
        let i = position_of(self.pairs(), key);
        lemma_lookup(self.pairs(), i);
        let s = self.sessions@[i];
        assert(s.wf());
        if !s.done {
            let pp = piece_pairs(s.parts@);
            assert forall|x: u64| s.parts_map().dom().contains(x) implies x < s.total by {
                let p = position_of(pp, x);
                assert(s.parts@[p].index < s.total);
            }
            if complete(s.parts_map(), s.total) {
                lemma_complete_prefix(s.parts@, s.total, s.total - 1);
            }
        }
    }

    pub fn new() -> (res: Self)
        ensures
            res.wf(),
            res@ == Map::<SessionKey, SessionView>::empty(),
    {
        let res = Assembler { sessions: Vec::new() };
        proof {
            lemma_empty::<SessionKey, SessionView>();
            assert(res.pairs() =~= Seq::empty());
        }
        res
    }

    fn find(&self, session_id: u64, source: NodeId) -> (res: Option<usize>)
        requires
            self.wf(),
        ensures
            match res {
                Some(i) => i < self.sessions@.len() && self.sessions@[i as int].key() == (
                    session_id,
                    source,
                ) && lookup(self@, (session_id, source)) == Some(self.sessions@[i as int].state()),
                None => !has_key(self.pairs(), (session_id, source)) && lookup(
                    self@,
                    (session_id, source),
                ).is_none(),
            },
    {
        let mut i: usize = 0;
        while i < self.sessions.len()
            invariant
                self.wf(),
                i <= self.sessions@.len(),
                forall|j: int| 0 <= j < i ==> (#[trigger] self.pairs()[j]).0 != (session_id, source),
            decreases self.sessions@.len() - i,
        {
            if self.sessions[i].session_id == session_id && self.sessions[i].source == source {
                proof {
                    lemma_lookup(self.pairs(), i as int);
                }
                return Some(i);
            }
            i = i + 1;
        }
        None
    }

    /// The fragments of the message, in order.
    pub fn fragment_message(&self, message: &Message) -> (res: Vec<Fragment>)
        ensures
            res@.len() == fragment_count(encode(message@).len()),
            forall|i: int|
                0 <= i < res@.len() ==> (#[trigger] res@[i])@ == fragment_at(encode(message@), i),
            encodable(message@),
    {
        let bytes = encode_message(message);
        fragment_bytes(&bytes)
    }

    /// Takes a fragment of the session `(session_id, source_id)` in and hands
    /// out the message once its last missing part has arrived. Bytes that do
    /// not read as a message are dropped without a word.
    pub fn process_fragment(&mut self, fragment: Fragment, session_id: u64, source_id: NodeId) -> (res:
        Option<Message>)
        requires
            old(self).wf(),
        ensures
            final(self).wf(),
            final(self)@ == with_session(
                old(self)@,
                (session_id, source_id),
                next_state(lookup(old(self)@, (session_id, source_id)), fragment@),
            ),
            match res {
                Some(m) => message_output(lookup(old(self)@, (session_id, source_id)), fragment@)
                    == Some(m@),
                None => message_output(
                    lookup(old(self)@, (session_id, source_id)),
                    fragment@,
                ).is_none(),
            },
    {
        match self.reassemble(fragment, session_id, source_id) {
            Some(bytes) => decode_message(&bytes),
            None => None,
        }
    }

    /// Takes a fragment of the session `(session_id, source_id)` in and hands
    /// out the bytes of the message once its last missing part has arrived.
    pub fn reassemble(&mut self, fragment: Fragment, session_id: u64, source_id: NodeId) -> (res:
        Option<Vec<u8>>)
        requires
            old(self).wf(),
        ensures
            final(self).wf(),
            final(self)@ == with_session(
                old(self)@,
                (session_id, source_id),
                next_state(lookup(old(self)@, (session_id, source_id)), fragment@),
            ),
            match res {
                Some(bytes) => output(lookup(old(self)@, (session_id, source_id)), fragment@)
                    == Some(bytes@),
                None => output(lookup(old(self)@, (session_id, source_id)), fragment@).is_none(),
            },
    {
        let ghost key = (session_id, source_id);
        let ghost before = self.pairs();
        let ghost state = lookup(self@, key);
        if fragment.fragment_index >= fragment.total_n_fragments {
            return None;
        }
        let found = self.find(session_id, source_id);
        let at: usize = match found {
            Some(i) => i,
            None => {
                self.sessions.push(
                    Session {
                        session_id,
                        source: source_id,
                        total: fragment.total_n_fragments,
                        parts: Vec::new(),
                        done: false,
                    },
                );
                self.sessions.len() - 1
            },
        };
        // From here on the session is at position `at`; where it is new, it is
        // open and empty, which the view does not tell from an absent one.
        let ghost fresh = found.is_none();
        let session = &self.sessions[at];
        if session.done || session.total != fragment.total_n_fragments {
            assert(!fresh);
            return None;
        }
        let total = session.total;
        let mut pos: usize = 0;
        while pos < session.parts.len() && session.parts[pos].index < fragment.fragment_index
            invariant
                pos <= session.parts@.len(),
                forall|j: int| 0 <= j < pos ==> (#[trigger] session.parts@[j]).index
                    < fragment.fragment_index,
            decreases session.parts@.len() - pos,
        {
            pos = pos + 1;
        }
        let ghost old_parts = session.parts@;
        let ghost pp = piece_pairs(old_parts);
        proof {
            if fresh {
                assert(pp =~= Seq::empty());
                lemma_empty::<u64, Seq<u8>>();
            } else {
                assert(old(self).sessions@[at as int].wf());
            }
            lemma_ascending_unique(old_parts);
        }
        if pos < session.parts.len() && session.parts[pos].index == fragment.fragment_index {
            proof {
                lemma_lookup(pp, pos as int);
                assert(!fresh);
            }
            return None;
        }
        proof {
            assert(!has_key(pp, fragment.fragment_index)) by {
                if has_key(pp, fragment.fragment_index) {
                    let j = position_of(pp, fragment.fragment_index);
                    if j >= pos {
                        if j > pos {
                            assert(old_parts[pos as int].index < old_parts[j].index);
                        }
                    } else {
                        assert(old_parts[j].index < fragment.fragment_index);
                    }
                }
            }
            lemma_absent_from_map(pp, fragment.fragment_index);
            lemma_insert_at(pp, pos as int, fragment.fragment_index, fragment.data@);
        }
        let ghost data = fragment.data@;
        let index = fragment.fragment_index;
        let mut entry = Session {
            session_id,
            source: source_id,
            total,
            parts: Vec::new(),
            done: false,
        };
        std::mem::swap(&mut entry, &mut self.sessions[at]);
        let mut parts = entry.parts;
        parts.insert(pos, Piece { index, data: fragment.data });
        proof {
            assert(piece_pairs(parts@) =~= pp.insert(pos as int, (index, data)));
            assert(as_map(piece_pairs(parts@)) == parts_with(state, fragment@)) by {
                if fresh {
                    assert(as_map(pp) =~= Map::<u64, Seq<u8>>::empty());
                }
            }
            assert(ascending(parts@)) by {
                assert forall|i: int, j: int| 0 <= i < j < parts@.len() implies parts@[i].index
                    < parts@[j].index by {
                    let i2 = if i < pos { i } else { i - 1 };
                    let j2 = if j < pos { j } else { j - 1 };
                    if i != pos && j != pos {
                        assert(old_parts[i2].index < old_parts[j2].index);
                    } else if i == pos {
                        if j2 > pos {
                            assert(old_parts[pos as int].index < old_parts[j2].index);
                        }
                    } else {
                        assert(old_parts[i2].index < index);
                    }
                }
            }
            assert forall|i: int| 0 <= i < parts@.len() implies (#[trigger] parts@[i]).index
                < total by {
                if i != pos {
                    let i2 = if i < pos { i } else { i - 1 };
                    assert(old_parts[i2].index < total);
                }
            }
        }
        let full = parts.len() as u64 == total;
        proof {
            if parts@.len() == total {
                assert forall|i: u64| i < total implies #[trigger] as_map(
                    piece_pairs(parts@),
                ).dom().contains(i) by {
                    lemma_ascending_full(parts@, total, i as int);
                    lemma_ascending_unique(parts@);
                    lemma_lookup(piece_pairs(parts@), i as int);
                }
            } else {
                if complete(as_map(piece_pairs(parts@)), total) {
                    lemma_complete_prefix(parts@, total, total - 1);
                    lemma_ascending_floor(parts@, parts@.len() - 1);
                }
            }
            assert(full == complete(parts_with(state, fragment@), total));
        }
        let res = if full {
            let bytes = join_parts(&parts, total);
            self.sessions[at] = Session {
                session_id,
                source: source_id,
                total,
                parts: Vec::new(),
                done: true,
            };
            Some(bytes)
        } else {
            proof {
                lemma_ascending_floor(parts@, parts@.len() - 1);
            }
            self.sessions[at] = Session { session_id, source: source_id, total, parts, done: false };
            None
        };
        proof {
            let after = next_state(state, fragment@).unwrap();
            assert(self.sessions@[at as int].state() == after);
            if fresh {
                assert(self.pairs() =~= before.push((key, after)));
                lemma_push(before, key, after);
            } else {
                assert(self.pairs() =~= before.update(at as int, (before[at as int].0, after)));
                lemma_update(before, at as int, after);
            }
            assert forall|i: int| 0 <= i < self.sessions@.len() implies (
            #[trigger] self.sessions@[i]).wf() by {
                if i != at {
                    assert(old(self).sessions@[i].wf());
                }
            }
        }
        res
    }
}

} // verus!
