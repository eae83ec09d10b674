//! The buffer graph: a forest of frames whose edges carry pose histories.
//!
//! Every node has at most one incoming edge, so a node's parent is the
//! source of that edge. Acyclicity is certified by a ghost rank: along
//! every edge the source's rank is strictly below the target's, so parent
//! chains terminate.

use vstd::prelude::*;
use crate::history::{TransformHistory, spec_append, spec_interpolate, stamps_increasing};
use crate::index::{NodeIndex, spec_contains_name, spec_id_of};
use crate::math::{Pose, compose_of, identity_pose, inverse_of};
use crate::types::{BufferConfig, StampedIsometry, TfError, TransformType};

verus! {

/// A directed edge of the frame graph with its pose history.
pub struct Edge {
    /// The source frame's id (the parent).
    pub from: usize,
    /// The target frame's id (the child).
    pub to: usize,
    /// The samples this directed pair has seen.
    pub history: TransformHistory,
}

/// The mathematical content of an edge: endpoints, kind, cap and the
/// stored samples.
pub ghost struct EdgeModel {
    pub from: usize,
    pub to: usize,
    pub kind: TransformType,
    pub cap: int,
    pub history: Seq<StampedIsometry>,
}

impl View for Edge {
    type V = EdgeModel;

    open spec fn view(&self) -> EdgeModel {
        EdgeModel {
            from: self.from,
            to: self.to,
            kind: self.history.kind,
            cap: self.history.max_history as int,
            history: self.history.history@,
        }
    }
}

/// What an observer is told after a committed update: the edge, the stored
/// sample and its kind.
#[derive(Clone, Copy, Debug)]
pub struct Notification {
    pub from_id: usize,
    pub to_id: usize,
    pub transform: StampedIsometry,
    pub kind: TransformType,
}

/// The models of a sequence of edges.
pub open spec fn models_of(es: Seq<Edge>) -> Seq<EdgeModel> {
    es.map_values(|e: Edge| e@)
}

/// The views of the observers' queues.
pub open spec fn queues_of(qs: Seq<Vec<Notification>>) -> Seq<Seq<Notification>> {
    qs.map_values(|q: Vec<Notification>| q@)
}

/// There is an edge from `a` to `b`.
pub open spec fn has_edge(es: Seq<EdgeModel>, a: usize, b: usize) -> bool {
    exists|i: int| 0 <= i < es.len() && es[i].from == a && es[i].to == b
}

/// The position of the edge from `a` to `b`.
pub open spec fn edge_idx(es: Seq<EdgeModel>, a: usize, b: usize) -> int {
    choose|i: int| 0 <= i < es.len() && es[i].from == a && es[i].to == b
}

/// The node has an incoming edge.
pub open spec fn has_parent(es: Seq<EdgeModel>, v: usize) -> bool {
    exists|i: int| 0 <= i < es.len() && es[i].to == v
}

/// The source of the node's incoming edge.
pub open spec fn parent_of(es: Seq<EdgeModel>, v: usize) -> usize {
    es[choose|i: int| 0 <= i < es.len() && es[i].to == v].from
}

/// No node has two incoming edges.
pub open spec fn one_incoming(es: Seq<EdgeModel>) -> bool {
    forall|i: int, j: int| 0 <= i < j < es.len() ==> es[i].to != es[j].to
}

/// The node appears as an endpoint of some edge.
pub open spec fn in_graph(es: Seq<EdgeModel>, v: usize) -> bool {
    exists|i: int| 0 <= i < es.len() && (es[i].from == v || es[i].to == v)
}

/// `a` lies on the parent chain of `w`, reached within `fuel` steps.
pub open spec fn on_chain(es: Seq<EdgeModel>, w: usize, a: usize, fuel: nat) -> bool
    decreases fuel,
{
    w == a || (fuel > 0 && has_parent(es, w) && on_chain(es, parent_of(es, w), a, (fuel - 1) as nat))
}

/// `a` lies on the parent chain of `w` (itself included).
pub open spec fn hits(es: Seq<EdgeModel>, w: usize, a: usize) -> bool {
    exists|f: nat| on_chain(es, w, a, f)
}

/// The two nodes share an ancestor, that is, they lie in the same tree.
pub open spec fn connected(es: Seq<EdgeModel>, v: usize, w: usize) -> bool {
    exists|a: usize| hits(es, v, a) && hits(es, w, a)
}

/// The rank certifies acyclicity: along every edge it strictly increases.
pub open spec fn ranked(es: Seq<EdgeModel>, rank: Map<usize, nat>) -> bool {
    forall|i: int|
        0 <= i < es.len() ==> rank.dom().contains((#[trigger] es[i]).from) && rank.dom().contains(
            es[i].to,
        ) && rank[es[i].from] < rank[es[i].to]
}

/// A step of the chain: `a` is on `w`'s chain exactly when `w` is `a` or
/// `a` is on the parent's chain.
pub proof fn lemma_hits_unfold(es: Seq<EdgeModel>, w: usize, a: usize)
    ensures
        hits(es, w, a) == (w == a || (has_parent(es, w) && hits(es, parent_of(es, w), a))),
{
    if hits(es, w, a) {
        let f = choose|f: nat| on_chain(es, w, a, f);
        if w != a {
            assert(on_chain(es, parent_of(es, w), a, (f - 1) as nat));
        }
    }
    if w == a {
        assert(on_chain(es, w, a, 0));
    } else if has_parent(es, w) && hits(es, parent_of(es, w), a) {
        let f = choose|f: nat| on_chain(es, parent_of(es, w), a, f);
        assert(on_chain(es, w, a, f + 1));
    }
}

/// A simple path from `f` to `t`: non-empty, with the right endpoints,
/// each consecutive pair joined by an edge in one direction or the
/// other, and no node repeated.
pub open spec fn valid_path(es: Seq<EdgeModel>, p: Seq<usize>, f: usize, t: usize) -> bool {
    &&& p.len() >= 1
    &&& p[0] == f
    &&& p.last() == t
    &&& forall|i: int| 0 <= i < p.len() - 1 ==> adjacent(es, #[trigger] p[i], p[i + 1])
    &&& forall|i: int, j: int| 0 <= i < j < p.len() ==> p[i] != p[j]
}

/// The two nodes are joined by an edge in one direction or the other.
pub open spec fn adjacent(es: Seq<EdgeModel>, a: usize, b: usize) -> bool {
    has_edge(es, a, b) || has_edge(es, b, a)
}

/// An edge pins the child's parent: with at most one incoming edge per
/// node, the source of any edge into `b` is `b`'s one parent.
proof fn lemma_edge_parent(es: Seq<EdgeModel>, a: usize, b: usize)
    requires
        one_incoming(es),
        has_edge(es, a, b),
    ensures
        has_parent(es, b),
        parent_of(es, b) == a,
{
    let i = choose|i: int| 0 <= i < es.len() && es[i].from == a && es[i].to == b;
    let k = choose|k: int| 0 <= k < es.len() && es[k].to == b;
    if k != i {
        assert(false);
    }
}

/// The shape a simple path can take: it climbs toward the root for a
/// while, then descends, split at index `k`.
spec fn walk_phases(es: Seq<EdgeModel>, p: Seq<usize>, k: int) -> bool {
    &&& 0 <= k < p.len()
    &&& forall|i: int| 0 <= i < k ==> has_edge(es, p[i + 1], #[trigger] p[i])
    &&& forall|i: int| k <= i < p.len() - 1 ==> has_edge(es, #[trigger] p[i], p[i + 1])
}

/// Once a simple path steps downward it keeps descending: turning back
/// up would revisit the unique parent it just left.
proof fn lemma_down_propagates(
    es: Seq<EdgeModel>,
    p: Seq<usize>,
    f: usize,
    t: usize,
    k: int,
    i: int,
)
    requires
        one_incoming(es),
        valid_path(es, p, f, t),
        0 <= k <= i < p.len() - 1,
        has_edge(es, p[k], p[k + 1]),
    ensures
        has_edge(es, p[i], p[i + 1]),
    decreases i,
{
    if i > k {
        lemma_down_propagates(es, p, f, t, k, i - 1);
        if !has_edge(es, p[i], p[i + 1]) {
            assert(has_edge(es, p[i + 1], p[i]));
            lemma_edge_parent(es, p[i + 1], p[i]);
            lemma_edge_parent(es, p[i - 1], p[i]);
            assert(p[i - 1] == p[i + 1]);
            assert(false);
        }
    }
}

/// There is a least downward step, where one exists at all.
proof fn lemma_least_down(es: Seq<EdgeModel>, p: Seq<usize>, j: int)
    requires
        0 <= j < p.len() - 1,
        has_edge(es, p[j], p[j + 1]),
    ensures
        exists|k: int|
            0 <= k <= j && has_edge(es, p[k], #[trigger] p[k + 1]) && (forall|i: int|
                0 <= i < k ==> !has_edge(es, p[i], #[trigger] p[i + 1])),
    decreases j,
{
    if exists|i: int| 0 <= i < j && has_edge(es, p[i], #[trigger] p[i + 1]) {
        let i0 = choose|i: int| 0 <= i < j && has_edge(es, p[i], #[trigger] p[i + 1]);
        lemma_least_down(es, p, i0);
    }
}

/// Every simple path of at least one step splits into an upward run
/// followed by a downward run.
proof fn lemma_walk_shape(es: Seq<EdgeModel>, p: Seq<usize>, f: usize, t: usize)
    requires
        one_incoming(es),
        valid_path(es, p, f, t),
        p.len() >= 2,
    ensures
        exists|k: int| walk_phases(es, p, k),
{
    if exists|i: int| 0 <= i < p.len() - 1 && has_edge(es, p[i], #[trigger] p[i + 1]) {
        let j = choose|i: int| 0 <= i < p.len() - 1 && has_edge(es, p[i], #[trigger] p[i + 1]);
        lemma_least_down(es, p, j);
        let k = choose|k: int|
            0 <= k <= j && has_edge(es, p[k], #[trigger] p[k + 1]) && (forall|i: int|
                0 <= i < k ==> !has_edge(es, p[i], #[trigger] p[i + 1]));
        assert forall|i: int| k <= i < p.len() - 1 implies has_edge(
            es,
            #[trigger] p[i],
            p[i + 1],
        ) by {
            lemma_down_propagates(es, p, f, t, k, i);
        }
        assert(walk_phases(es, p, k));
    } else {
        assert(walk_phases(es, p, p.len() - 1));
    }
}

/// Ranks fall strictly along an upward run.
proof fn lemma_up_ranks(
    es: Seq<EdgeModel>,
    rank: Map<usize, nat>,
    p: Seq<usize>,
    k: int,
    i: int,
    j: int,
)
    requires
        ranked(es, rank),
        k < p.len(),
        forall|i2: int| 0 <= i2 < k ==> has_edge(es, p[i2 + 1], #[trigger] p[i2]),
        0 <= i < j <= k,
    ensures
        rank[p[j]] < rank[p[i]],
    decreases j - i,
{
    let e = choose|e: int| 0 <= e < es.len() && es[e].from == p[j] && es[e].to == p[j - 1];
    assert(rank[p[j]] < rank[p[j - 1]]);
    if j - 1 > i {
        lemma_up_ranks(es, rank, p, k, i, j - 1);
    }
}

/// Ranks rise strictly along a downward run.
proof fn lemma_down_ranks(
    es: Seq<EdgeModel>,
    rank: Map<usize, nat>,
    p: Seq<usize>,
    k: int,
    i: int,
    j: int,
)
    requires
        ranked(es, rank),
        0 <= k,
        forall|i2: int| k <= i2 < p.len() - 1 ==> has_edge(es, #[trigger] p[i2], p[i2 + 1]),
        k <= i < j <= p.len() - 1,
    ensures
        rank[p[i]] < rank[p[j]],
    decreases j - i,
{
    let e = choose|e: int| 0 <= e < es.len() && es[e].from == p[j - 1] && es[e].to == p[j];
    assert(rank[p[j - 1]] < rank[p[j]]);
    if j - 1 > i {
        lemma_down_ranks(es, rank, p, k, i, j - 1);
    }
}

/// Two paths that climb from the same node agree while both climb: each
/// step goes to the one parent.
proof fn lemma_up_agree(
    es: Seq<EdgeModel>,
    p: Seq<usize>,
    q: Seq<usize>,
    kp: int,
    kq: int,
    i: int,
)
    requires
        one_incoming(es),
        kp < p.len(),
        kq < q.len(),
        forall|i2: int| 0 <= i2 < kp ==> has_edge(es, p[i2 + 1], #[trigger] p[i2]),
        forall|i2: int| 0 <= i2 < kq ==> has_edge(es, q[i2 + 1], #[trigger] q[i2]),
        p[0] == q[0],
        0 <= i <= kp,
        i <= kq,
    ensures
        p[i] == q[i],
    decreases i,
{
    if i > 0 {
        lemma_up_agree(es, p, q, kp, kq, i - 1);
        lemma_edge_parent(es, p[i], p[i - 1]);
        lemma_edge_parent(es, q[i], q[i - 1]);
    }
}

/// Two paths that descend to the same node agree while both descend,
/// counted from their ends: each backward step goes to the one parent.
proof fn lemma_down_agree(
    es: Seq<EdgeModel>,
    p: Seq<usize>,
    q: Seq<usize>,
    kp: int,
    kq: int,
    d: int,
)
    requires
        one_incoming(es),
        0 <= kp < p.len(),
        0 <= kq < q.len(),
        forall|i2: int| kp <= i2 < p.len() - 1 ==> has_edge(es, #[trigger] p[i2], p[i2 + 1]),
        forall|i2: int| kq <= i2 < q.len() - 1 ==> has_edge(es, #[trigger] q[i2], q[i2 + 1]),
        p.last() == q.last(),
        0 <= d,
        d <= p.len() - 1 - kp,
        d <= q.len() - 1 - kq,
    ensures
        p[p.len() - 1 - d] == q[q.len() - 1 - d],
    decreases d,
{
    if d > 0 {
        lemma_down_agree(es, p, q, kp, kq, d - 1);
        let lp = p.len() as int;
        let lq = q.len() as int;
        lemma_edge_parent(es, p[lp - 1 - d], p[lp - d]);
        lemma_edge_parent(es, q[lq - 1 - d], q[lq - d]);
    }
}

/// The heart of uniqueness, with the split indices in hand and ordered.
proof fn lemma_unique_from_shapes(
    es: Seq<EdgeModel>,
    rank: Map<usize, nat>,
    p: Seq<usize>,
    q: Seq<usize>,
    f: usize,
    t: usize,
    kp: int,
    kq: int,
)
    requires
        one_incoming(es),
        ranked(es, rank),
        valid_path(es, p, f, t),
        valid_path(es, q, f, t),
        p.len() >= 2,
        q.len() >= 2,
        walk_phases(es, p, kp),
        walk_phases(es, q, kq),
        kp <= kq,
    ensures
        p == q,
{
    let lp = p.len() as int;
    let lq = q.len() as int;
    let dp = lp - 1 - kp;
    let dq = lq - 1 - kq;
    assert forall|i: int| 0 <= i <= kp implies p[i] == q[i] by {
        lemma_up_agree(es, p, q, kp, kq, i);
    }
    if kp < kq {
        // q's split node sits strictly above p's, yet both paths descend
        // to t, so one of them must revisit a node
        lemma_up_ranks(es, rank, q, kq, kp, kq);
        assert(rank[q[kq]] < rank[p[kp]]);
        if dp <= dq {
            lemma_down_agree(es, p, q, kp, kq, dp);
            assert(q[kp] == q[lq - 1 - dp]);
            assert(false);
        } else {
            lemma_down_agree(es, p, q, kp, kq, dq);
            assert(q[kq] == p[lp - 1 - dq]);
            lemma_down_ranks(es, rank, p, kp, kp, lp - 1 - dq);
            assert(false);
        }
    }
    // the splits agree, and so must the descent lengths
    if dp < dq {
        lemma_down_agree(es, p, q, kp, kq, dp);
        assert(q[kp] == q[lq - 1 - dp]);
        assert(false);
    }
    if dq < dp {
        lemma_down_agree(es, p, q, kp, kq, dq);
        assert(p[kp] == p[lp - 1 - dq]);
        assert(false);
    }
    assert forall|i: int| 0 <= i < lp implies p[i] == q[i] by {
        if i <= kp {
            lemma_up_agree(es, p, q, kp, kq, i);
        } else {
            lemma_down_agree(es, p, q, kp, kq, lp - 1 - i);
        }
    }
    assert(p =~= q);
}

/// In a forest there is exactly one simple path between two frames: any
/// two walks with the same endpoints and no repeated nodes are equal.
pub proof fn lemma_simple_path_unique(
    es: Seq<EdgeModel>,
    rank: Map<usize, nat>,
    p: Seq<usize>,
    q: Seq<usize>,
    f: usize,
    t: usize,
)
    requires
        one_incoming(es),
        ranked(es, rank),
        valid_path(es, p, f, t),
        valid_path(es, q, f, t),
    ensures
        p == q,
{
    if p.len() == 1 {
        assert(f == t);
        if q.len() >= 2 {
            assert(q[0] == q[q.len() - 1]);
            assert(false);
        }
        assert(p =~= q);
    } else if q.len() == 1 {
        assert(f == t);
        assert(p[0] == p[p.len() - 1]);
        assert(false);
    } else {
        lemma_walk_shape(es, p, f, t);
        lemma_walk_shape(es, q, f, t);
        let kp = choose|k: int| walk_phases(es, p, k);
        let kq = choose|k: int| walk_phases(es, q, k);
        if kp <= kq {
            lemma_unique_from_shapes(es, rank, p, q, f, t, kp, kq);
        } else {
            lemma_unique_from_shapes(es, rank, q, p, f, t, kq, kp);
        }
    }
}

/// The sequence of notifications that replays the latest entry of every
/// existing edge, in edge insertion order.
pub open spec fn spec_replay(es: Seq<EdgeModel>) -> Seq<Notification> {
    Seq::new(
        es.len(),
        |i: int|
            Notification {
                from_id: es[i].from,
                to_id: es[i].to,
                transform: es[i].history.last(),
                kind: es[i].kind,
            },
    )
}

/// The result an update returns, given the edges before it and the two
/// resolved ids: an existing edge delegates to the history append; a new
/// edge is rejected when the target already has a parent or the source's
/// ancestor chain reaches the target (which would close a cycle, the
/// self-loop included); otherwise it is accepted.
pub open spec fn spec_update_result(
    es: Seq<EdgeModel>,
    s: usize,
    t: usize,
    si: StampedIsometry,
) -> Result<(), TfError> {
    if has_edge(es, s, t) {
        match spec_append(es[edge_idx(es, s, t)].history, es[edge_idx(es, s, t)].cap, si) {
            Ok(_) => Ok(()),
            Err(e) => Err(e),
        }
    } else if has_parent(es, t) || hits(es, s, t) {
        Err(TfError::InvalidGraph)
    } else {
        Ok(())
    }
}

/// The edges after an update: unchanged on failure, the one history
/// extended on an existing edge, a fresh one-sample edge appended
/// otherwise.
pub open spec fn spec_update_edges(
    es: Seq<EdgeModel>,
    s: usize,
    t: usize,
    si: StampedIsometry,
    kind: TransformType,
    cap: int,
) -> Seq<EdgeModel> {
    if has_edge(es, s, t) {
        let i = edge_idx(es, s, t);
        match spec_append(es[i].history, es[i].cap, si) {
            Ok(hh) => es.update(i, EdgeModel { history: hh, ..es[i] }),
            Err(_) => es,
        }
    } else if has_parent(es, t) || hits(es, s, t) {
        es
    } else {
        es.push(EdgeModel { from: s, to: t, kind: kind, cap: cap, history: seq![si] })
    }
}

/// The kind observers are told: the stored edge's kind where the edge
/// already exists, the requested kind where it is created.
pub open spec fn spec_note_kind(
    es: Seq<EdgeModel>,
    s: usize,
    t: usize,
    kind: TransformType,
) -> TransformType {
    if has_edge(es, s, t) {
        es[edge_idx(es, s, t)].kind
    } else {
        kind
    }
}

/// What a committed update posts to every observer queue.
pub open spec fn all_notified(
    old_qs: Seq<Seq<Notification>>,
    new_qs: Seq<Seq<Notification>>,
    note: Notification,
) -> bool {
    &&& new_qs.len() == old_qs.len()
    &&& forall|k: int| 0 <= k < old_qs.len() ==> new_qs[k] == old_qs[k].push(note)
}

/// The pose one step of a walk contributes when the latest samples are
/// taken: the last stored pose along a forward edge, its inverse along a
/// backward one.
pub open spec fn step_latest(es: Seq<EdgeModel>, a: usize, b: usize) -> Pose {
    if has_edge(es, a, b) {
        es[edge_idx(es, a, b)].history.last().isometry
    } else {
        inverse_of(es[edge_idx(es, b, a)].history.last().isometry)
    }
}

/// The composition of the latest poses along a walk, left to right,
/// starting from the identity.
pub open spec fn fold_latest(es: Seq<EdgeModel>, p: Seq<usize>) -> Pose
    decreases p.len(),
{
    if p.len() <= 1 {
        identity_pose()
    } else {
        compose_of(fold_latest(es, p.drop_last()), step_latest(es, p[p.len() - 2], p[p.len() - 1]))
    }
}

/// The pose one step of a walk contributes at an instant: the edge's
/// interpolation along a forward edge, its inverse along a backward one;
/// the interpolation's error otherwise.
pub open spec fn step_at(es: Seq<EdgeModel>, a: usize, b: usize, time: i64) -> Result<
    Pose,
    TfError,
> {
    if has_edge(es, a, b) {
        spec_interpolate(es[edge_idx(es, a, b)].history, es[edge_idx(es, a, b)].kind, time)
    } else {
        match spec_interpolate(
            es[edge_idx(es, b, a)].history,
            es[edge_idx(es, b, a)].kind,
            time,
        ) {
            Ok(p0) => Ok(inverse_of(p0)),
            Err(e) => Err(e),
        }
    }
}

/// The composition of the interpolated poses along a walk, left to right;
/// the first failing step's error short-circuits.
pub open spec fn fold_at(es: Seq<EdgeModel>, p: Seq<usize>, time: i64) -> Result<Pose, TfError>
    decreases p.len(),
{
    if p.len() <= 1 {
        Ok(identity_pose())
    } else {
        match fold_at(es, p.drop_last(), time) {
            Err(e) => Err(e),
            Ok(acc) => match step_at(es, p[p.len() - 2], p[p.len() - 1], time) {
                Err(e) => Err(e),
                Ok(st) => Ok(compose_of(acc, st)),
            },
        }
    }
}

/// The tree shape, stated directly: under the buffer's invariant no
/// node has two incoming edges, and every node's ancestor chain ends at
/// a root, so the underlying undirected graph has no cycles.
pub proof fn lemma_tree_shape(es: Seq<EdgeModel>, rank: Map<usize, nat>, v: usize)
    requires
        one_incoming(es),
        ranked(es, rank),
    ensures
        exists|a: usize| hits(es, v, a) && !has_parent(es, a),
    decreases rank[v],
{
    if has_parent(es, v) {
        let p = parent_of(es, v);
        let kk = choose|k: int| 0 <= k < es.len() && es[k].to == v;
        assert(es[kk].from == p);
        assert(rank[p] < rank[v]);
        lemma_tree_shape(es, rank, p);
        let a = choose|a: usize| hits(es, p, a) && !has_parent(es, a);
        lemma_hits_unfold(es, v, a);
    } else {
        assert(hits(es, v, v)) by {
            assert(on_chain(es, v, v, 0));
        }
    }
}

/// The edge a walk step runs over, whichever way it points.
pub open spec fn step_edge(es: Seq<EdgeModel>, a: usize, b: usize) -> EdgeModel {
    if has_edge(es, a, b) {
        es[edge_idx(es, a, b)]
    } else {
        es[edge_idx(es, b, a)]
    }
}

/// Every edge along the walk is static and holds at least one sample.
pub open spec fn static_path(es: Seq<EdgeModel>, p: Seq<usize>) -> bool {
    forall|i: int|
        0 <= i < p.len() - 1 ==> (#[trigger] step_edge(es, p[i], p[i + 1])).kind
            == TransformType::Static && step_edge(es, p[i], p[i + 1]).history.len() >= 1
}

/// Static walks do not depend on the instant: composing the
/// interpolated poses at any time equals composing the latest samples,
/// because a static edge always answers with its most recent pose.
pub proof fn lemma_static_path_time_independent(es: Seq<EdgeModel>, p: Seq<usize>, time: i64)
    requires
        forall|i: int| 0 <= i < p.len() - 1 ==> adjacent(es, #[trigger] p[i], p[i + 1]),
        static_path(es, p),
    ensures
        fold_at(es, p, time) == Ok::<Pose, TfError>(fold_latest(es, p)),
    decreases p.len(),
{
    if p.len() > 1 {
        let q = p.drop_last();
        assert(forall|i: int| 0 <= i < q.len() ==> q[i] == p[i]);
        assert(forall|i: int| 0 <= i < q.len() - 1 ==> adjacent(es, #[trigger] q[i], q[i + 1]));
        assert(forall|i: int|
            0 <= i < q.len() - 1 ==> (#[trigger] step_edge(es, q[i], q[i + 1])).kind
                == TransformType::Static && step_edge(es, q[i], q[i + 1]).history.len() >= 1);
        lemma_static_path_time_independent(es, q, time);
        let a = p[p.len() - 2];
        let b = p[p.len() - 1];
        assert(step_edge(es, a, b).kind == TransformType::Static && step_edge(
            es,
            a,
            b,
        ).history.len() >= 1);
        assert(step_at(es, a, b, time) == Ok::<Pose, TfError>(step_latest(es, a, b)));
    }
}

/// An error reached on a prefix of the walk is the walk's result.
proof fn lemma_fold_at_prefix_error(es: Seq<EdgeModel>, p: Seq<usize>, k: int, time: i64)
    requires
        1 <= k <= p.len(),
        fold_at(es, p.take(k), time) is Err,
    ensures
        fold_at(es, p, time) == fold_at(es, p.take(k), time),
    decreases p.len(),
{
    if k == p.len() {
        assert(p.take(k) =~= p);
    } else {
        assert(p.take(k) =~= p.drop_last().take(k));
        lemma_fold_at_prefix_error(es, p.drop_last(), k, time);
    }
}

/// The character of one decimal digit.
pub open spec fn spec_digit(d: int) -> char {
    ((('0' as u8) + d) as u8) as char
}

/// The decimal rendering of a number, most significant digit first.
pub open spec fn spec_dec(n: int) -> Seq<char>
    decreases n,
{
    if n < 10 {
        seq![spec_digit(n)]
    } else {
        spec_dec(n / 10).push(spec_digit(n % 10))
    }
}

/// The needle occurs somewhere in the haystack.
pub open spec fn contains_seq(hay: Seq<char>, needle: Seq<char>) -> bool {
    exists|k: int|
        0 <= k && k + needle.len() <= hay.len() && #[trigger] hay.subrange(k, k + needle.len())
            == needle
}

/// An occurrence survives extending the haystack on the right.
proof fn lemma_contains_extend(hay: Seq<char>, ext: Seq<char>, needle: Seq<char>)
    requires
        contains_seq(hay, needle),
    ensures
        contains_seq(hay + ext, needle),
{
    let k = choose|k: int|
        0 <= k && k + needle.len() <= hay.len() && #[trigger] hay.subrange(k, k + needle.len())
            == needle;
    assert((hay + ext).subrange(k, k + needle.len()) =~= hay.subrange(k, k + needle.len()));
}

/// What is spliced into the middle of a concatenation occurs in it.
proof fn lemma_contains_at(a: Seq<char>, needle: Seq<char>, b: Seq<char>)
    ensures
        contains_seq(a + needle + b, needle),
{
    assert((a + needle + b).subrange(a.len() as int, a.len() as int + needle.len() as int) =~= needle);
}

/// One digit as text.
fn digit_string(d: usize) -> (s: String)
    requires
        d < 10,
    ensures
        s@ == seq![spec_digit(d as int)],
{
    let s = match d {
        0 => String::from_str("0"),
        1 => String::from_str("1"),
        2 => String::from_str("2"),
        3 => String::from_str("3"),
        4 => String::from_str("4"),
        5 => String::from_str("5"),
        6 => String::from_str("6"),
        7 => String::from_str("7"),
        8 => String::from_str("8"),
        _ => String::from_str("9"),
    };
    proof {
        reveal_strlit("0");
        reveal_strlit("1");
        reveal_strlit("2");
        reveal_strlit("3");
        reveal_strlit("4");
        reveal_strlit("5");
        reveal_strlit("6");
        reveal_strlit("7");
        reveal_strlit("8");
        reveal_strlit("9");
        assert(s@ =~= seq![spec_digit(d as int)]);
    }
    s
}

/// Renders a number in decimal.
fn dec_string(n: usize) -> (s: String)
    ensures
        s@ == spec_dec(n as int),
    decreases n,
{
    let digit = digit_string(n % 10);
    if n < 10 {
        digit
    } else {
        let mut s = dec_string(n / 10);
        s.append(digit.as_str());
        proof {
            assert(s@ =~= spec_dec(n as int));
        }
        s
    }
}

/// The node statement the graph rendering holds for a frame.
pub open spec fn spec_node_stmt(v: int, name: Seq<char>) -> Seq<char> {
    spec_dec(v) + " [label=\""@ + name + "\"]\n"@
}

/// The edge statement the graph rendering holds for an edge: the two
/// node ids and the label of the latest sample.
pub open spec fn spec_edge_stmt(a: int, b: int, label: Seq<char>) -> Seq<char> {
    spec_dec(a) + " -> "@ + spec_dec(b) + " [label=\""@ + label + "\"]\n"@
}

/// Whether the id occurs in the vector.
fn contains_id(v: &Vec<usize>, x: usize) -> (r: bool)
    ensures
        r == v@.contains(x),
{
    let n = v.len();
    let mut i: usize = 0;
    while i < n
        invariant
            i <= n,
            n == v@.len(),
            forall|j: int| 0 <= j < i ==> v@[j] != x,
        decreases n - i,
    {
        if v[i] == x {
            proof {
                assert(v@.contains(x)) by {
                    assert(v@[i as int] == x);
                }
            }
            return true;
        }
        i = i + 1;
    }
    proof {
        if v@.contains(x) {
            let j = choose|j: int| 0 <= j < v@.len() && v@[j] == x;
            assert(false);
        }
    }
    false
}

/// The first position of the id in the vector.
fn position_of(v: &Vec<usize>, x: usize) -> (r: usize)
    requires
        v@.contains(x),
    ensures
        r < v@.len(),
        v@[r as int] == x,
        forall|j: int| 0 <= j < r ==> v@[j] != x,
{
    let n = v.len();
    let mut i: usize = 0;
    loop
        invariant
            i < n,
            n == v@.len(),
            v@.contains(x),
            forall|j: int| 0 <= j < i ==> v@[j] != x,
        decreases n - i,
    {
        if v[i] == x {
            return i;
        }
        proof {
            if i + 1 >= n {
                let j = choose|j: int| 0 <= j < v@.len() && v@[j] == x;
                assert(false);
            }
        }
        i = i + 1;
    }
}

/// Joins the two climbed chains at the common ancestor `p`: `path1` is
/// cut right after its first occurrence of `p`, and `path2` is appended
/// in reverse. The result walks from `path1`'s head to `path2`'s head.
/// Appending the next descending node keeps the joined path free of
/// repeats: it is distinct from the kept prefix (the chains are
/// disjoint) and from the already appended tail (its own chain has no
/// repeats).
proof fn lemma_join_step_distinct(
    before: Seq<usize>,
    e: usize,
    orig1: Seq<usize>,
    path2: Seq<usize>,
    tl: int,
    j: int,
)
    requires
        1 <= tl <= orig1.len(),
        0 <= j < path2.len(),
        before.len() == tl + (path2.len() - (j + 1)),
        forall|k: int| 0 <= k < tl ==> before[k] == orig1[k],
        forall|k: int|
            tl <= k < before.len() ==> before[k] == path2[path2.len() - 1 - (k - tl)],
        forall|i: int, k: int| 0 <= i < k < path2.len() ==> path2[i] != path2[k],
        forall|x: usize| path2.contains(x) ==> !orig1.contains(x),
        forall|i: int, k: int| 0 <= i < k < before.len() ==> before[i] != before[k],
        e == path2[j],
    ensures
        forall|i: int, k: int|
            0 <= i < k < before.push(e).len() ==> before.push(e)[i] != before.push(e)[k],
{
    let m2 = path2.len() as int;
    assert forall|i: int, k: int| 0 <= i < k < before.push(e).len() implies before.push(e)[i]
        != before.push(e)[k] by {
        if k < before.len() {
            assert(before.push(e)[i] == before[i]);
            assert(before.push(e)[k] == before[k]);
        } else {
            assert(before.push(e)[k] == e);
            assert(before.push(e)[i] == before[i]);
            assert(path2.contains(e)) by {
                assert(path2[j] == e);
            }
            if i < tl {
                assert(before[i] == orig1[i]);
                assert(orig1.contains(orig1[i])) by {
                    assert(orig1[i] == orig1[i]);
                }
                assert(!orig1.contains(e));
            } else {
                assert(before[i] == path2[m2 - 1 - (i - tl)]);
                assert(m2 - 1 - (i - tl) > j);
            }
        }
    }
}

#[verifier::rlimit(100)]
fn join_paths(
    path1: Vec<usize>,
    path2: &Vec<usize>,
    p: usize,
    Ghost(m): Ghost<Seq<EdgeModel>>,
    Ghost(f): Ghost<usize>,
    Ghost(t): Ghost<usize>,
) -> (r: Vec<usize>)
    requires
        path1@.len() >= 1,
        path1@[0] == f,
        path1@.contains(p),
        forall|i: int| 0 <= i < path1@.len() - 1 ==> has_edge(m, path1@[i + 1], #[trigger] path1@[i]),
        path2@.len() >= 1,
        path2@[0] == t,
        forall|i: int| 0 <= i < path2@.len() - 1 ==> has_edge(m, path2@[i + 1], #[trigger] path2@[i]),
        has_edge(m, p, path2@.last()),
        forall|i: int, j: int| 0 <= i < j < path1@.len() ==> path1@[i] != path1@[j],
        forall|i: int, j: int| 0 <= i < j < path2@.len() ==> path2@[i] != path2@[j],
        forall|x: usize| path2@.contains(x) ==> !path1@.contains(x),
    ensures
        valid_path(m, r@, f, t),
{
    let mut path1 = path1;
    let ghost orig1 = path1@;
    let n1 = path1.len();
    let pos = position_of(&path1, p);
    proof {
        assert(pos < n1);
    }
    path1.truncate(pos + 1);
    let ghost tl = path1@.len();
    proof {
        assert(path1@.last() == p);
        assert(path1@[0] == f);
        assert(forall|i: int|
            0 <= i < path1@.len() - 1 ==> adjacent(m, #[trigger] path1@[i], path1@[i + 1]));
        assert(forall|k: int| 0 <= k < tl ==> path1@[k] == orig1[k]);
    }
    let m2 = path2.len();
    let mut j = m2;
    while j > 0
        invariant
            j <= m2,
            m2 == path2@.len(),
            1 <= tl <= orig1.len(),
            path1@.len() == tl + (m2 - j),
            path1@[0] == f,
            forall|i: int|
                0 <= i < path1@.len() - 1 ==> adjacent(m, #[trigger] path1@[i], path1@[i + 1]),
            j == m2 ==> path1@.last() == p,
            j < m2 ==> path1@.last() == path2@[j as int],
            forall|i: int|
                0 <= i < path2@.len() - 1 ==> has_edge(m, path2@[i + 1], #[trigger] path2@[i]),
            has_edge(m, p, path2@.last()),
            forall|i: int, k: int| 0 <= i < k < path2@.len() ==> path2@[i] != path2@[k],
            forall|x: usize| path2@.contains(x) ==> !orig1.contains(x),
            forall|k: int| 0 <= k < tl ==> path1@[k] == orig1[k],
            forall|k: int|
                tl <= k < path1@.len() ==> path1@[k] == path2@[m2 - 1 - (k - tl)],
            forall|i: int, k: int| 0 <= i < k < path1@.len() ==> path1@[i] != path1@[k],
        decreases j,
    {
        j = j - 1;
        let ghost before = path1@;
        path1.push(path2[j]);
        proof {
            lemma_join_step_distinct(before, path2@[j as int], orig1, path2@, tl as int, j as int);
            assert(path1@ =~= before.push(path2@[j as int]));
        }
    }
    proof {
        assert(path1@.last() == path2@[0]);
    }
    path1
}

/// The in-memory transform buffer: the name index, the edges of the
/// forest, one pending-notification queue per registered observer, and the
/// configuration.
pub struct BufferTree {
    /// Frame names and their ids.
    pub index: NodeIndex,
    /// The edges, in insertion order.
    pub edges: Vec<Edge>,
    /// One queue of not-yet-collected notifications per observer.
    pub observers: Vec<Vec<Notification>>,
    /// The history cap and the visualization path.
    pub config: BufferConfig,
    /// The acyclicity certificate.
    pub rank: Ghost<Map<usize, nat>>,
}

impl BufferTree {
    /// The edge models, in insertion order.
    pub open spec fn model(&self) -> Seq<EdgeModel> {
        models_of(self.edges@)
    }

    /// The observers' pending notifications.
    pub open spec fn queues(&self) -> Seq<Seq<Notification>> {
        queues_of(self.observers@)
    }

    /// The buffer's invariant: a well-formed name index, edge endpoints
    /// that the index knows, no self-loops, at most one incoming edge per
    /// node, well-formed non-empty histories, and a rank certifying that
    /// the forest is acyclic.
    pub open spec fn wf(&self) -> bool {
        &&& self.index.wf()
        &&& self.config.max_transform_history >= 1
        &&& one_incoming(self.model())
        &&& ranked(self.model(), self.rank@)
        &&& forall|i: int|
            0 <= i < self.model().len() ==> (#[trigger] self.model()[i]).from
                < self.index.names@.len() && self.model()[i].to < self.index.names@.len()
                && self.model()[i].from != self.model()[i].to
        &&& forall|i: int|
            0 <= i < self.model().len() ==> (#[trigger] self.model()[i]).cap >= 1
                && 1 <= self.model()[i].history.len() <= self.model()[i].cap
                && stamps_increasing(self.model()[i].history)
    }

    /// An empty buffer with the default configuration.
    pub fn new() -> (r: Self)
        ensures
            r.wf(),
            r.model() == Seq::<EdgeModel>::empty(),
            r.queues() == Seq::<Seq<Notification>>::empty(),
            r.index.names@ == Seq::<String>::empty(),
            r.config.max_transform_history == 1000,
    {
        let r = BufferTree {
            index: NodeIndex::new(),
            edges: Vec::new(),
            observers: Vec::new(),
            config: BufferConfig::default(),
            rank: Ghost(Map::empty()),
        };
        proof {
            assert(r.model() =~= Seq::<EdgeModel>::empty());
            assert(r.queues() =~= Seq::<Seq<Notification>>::empty());
        }
        r
    }

    /// An empty buffer with the given configuration; the history cap must
    /// be positive.
    pub fn with_config(config: BufferConfig) -> (r: Self)
        requires
            config.max_transform_history >= 1,
        ensures
            r.wf(),
            r.model() == Seq::<EdgeModel>::empty(),
            r.queues() == Seq::<Seq<Notification>>::empty(),
            r.index.names@ == Seq::<String>::empty(),
            r.config == config,
    {
        let r = BufferTree {
            index: NodeIndex::new(),
            edges: Vec::new(),
            observers: Vec::new(),
            config,
            rank: Ghost(Map::empty()),
        };
        proof {
            assert(r.model() =~= Seq::<EdgeModel>::empty());
            assert(r.queues() =~= Seq::<Seq<Notification>>::empty());
        }
        r
    }

    /// The position of the edge `a -> b`, if that edge exists.
    fn edge_position(&self, a: usize, b: usize) -> (r: Option<usize>)
        requires
            one_incoming(self.model()),
        ensures
            match r {
                Some(i) => i < self.model().len() && self.model()[i as int].from == a
                    && self.model()[i as int].to == b && i == edge_idx(self.model(), a, b)
                    && has_edge(self.model(), a, b),
                None => !has_edge(self.model(), a, b),
            },
    {
        let n = self.edges.len();
        let mut i: usize = 0;
        while i < n
            invariant
                i <= n,
                n == self.model().len(),
                n == self.edges@.len(),
                one_incoming(self.model()),
                forall|j: int|
                    0 <= j < i ==> !((#[trigger] self.model()[j]).from == a && self.model()[j].to
                        == b),
            decreases n - i,
        {
            if self.edges[i].from == a && self.edges[i].to == b {
                proof {
                    assert(self.model()[i as int] == self.edges@[i as int]@);
                    assert(has_edge(self.model(), a, b));
                    let w = edge_idx(self.model(), a, b);
                    if w != i {
                        assert(self.model()[w].to == self.model()[i as int].to);
                        assert(false);
                    }
                }
                return Some(i);
            }
            proof {
                assert(self.model()[i as int] == self.edges@[i as int]@);
            }
            i = i + 1;
        }
        None
    }

    /// The parent of `v`, if `v` has an incoming edge.
    fn parent_of_exec(&self, v: usize) -> (r: Option<usize>)
        requires
            one_incoming(self.model()),
        ensures
            match r {
                Some(p) => has_parent(self.model(), v) && p == parent_of(self.model(), v),
                None => !has_parent(self.model(), v),
            },
    {
        let n = self.edges.len();
        let mut i: usize = 0;
        while i < n
            invariant
                i <= n,
                n == self.model().len(),
                n == self.edges@.len(),
                one_incoming(self.model()),
                forall|j: int| 0 <= j < i ==> (#[trigger] self.model()[j]).to != v,
            decreases n - i,
        {
            if self.edges[i].to == v {
                proof {
                    assert(self.model()[i as int] == self.edges@[i as int]@);
                    assert(has_parent(self.model(), v));
                    let w = choose|k: int| 0 <= k < self.model().len() && self.model()[k].to == v;
                    if w != i {
                        assert(false);
                    }
                }
                return Some(self.edges[i].from);
            }
            proof {
                assert(self.model()[i as int] == self.edges@[i as int]@);
            }
            i = i + 1;
        }
        None
    }

    /// Whether `target` lies on the parent chain of `start` (itself
    /// included).
    fn chain_contains(&self, start: usize, target: usize) -> (r: bool)
        requires
            one_incoming(self.model()),
            ranked(self.model(), self.rank@),
        ensures
            r == hits(self.model(), start, target),
    {
        let mut cur = start;
        loop
            invariant
                one_incoming(self.model()),
                ranked(self.model(), self.rank@),
                hits(self.model(), start, target) == hits(self.model(), cur, target),
            decreases self.rank@[cur],
        {
            if cur == target {
                proof {
                    lemma_hits_unfold(self.model(), cur, target);
                }
                return true;
            }
            match self.parent_of_exec(cur) {
                None => {
                    proof {
                        lemma_hits_unfold(self.model(), cur, target);
                    }
                    return false;
                },
                Some(p) => {
                    proof {
                        lemma_hits_unfold(self.model(), cur, target);
                        let k = choose|k: int|
                            0 <= k < self.model().len() && self.model()[k].to == cur;
                        assert(self.rank@[self.model()[k].from] < self.rank@[cur]);
                    }
                    cur = p;
                },
            }
        }
    }

    /// Whether the node takes part in any edge. The name index may know
    /// more names than the graph has nodes: a name introduced by a failed
    /// update stays known but out of the graph.
    pub fn contains_node(&self, v: usize) -> (r: bool)
        ensures
            r == in_graph(self.model(), v),
    {
        let n = self.edges.len();
        let mut i: usize = 0;
        while i < n
            invariant
                i <= n,
                n == self.model().len(),
                n == self.edges@.len(),
                forall|j: int|
                    0 <= j < i ==> (#[trigger] self.model()[j]).from != v && self.model()[j].to
                        != v,
            decreases n - i,
        {
            if self.edges[i].from == v || self.edges[i].to == v {
                proof {
                    assert(self.model()[i as int] == self.edges@[i as int]@);
                }
                return true;
            }
            proof {
                assert(self.model()[i as int] == self.edges@[i as int]@);
            }
            i = i + 1;
        }
        false
    }

    /// Appends the notification to every observer's queue.
    fn notify_all(&mut self, note: Notification)
        ensures
            final(self).index == old(self).index,
            final(self).edges@ == old(self).edges@,
            final(self).config == old(self).config,
            final(self).rank@ == old(self).rank@,
            all_notified(old(self).queues(), final(self).queues(), note),
    {
        let n = self.observers.len();
        let mut k: usize = 0;
        while k < n
            invariant
                k <= n,
                n == self.observers@.len(),
                n == old(self).observers@.len(),
                self.index == old(self).index,
                self.edges@ == old(self).edges@,
                self.config == old(self).config,
                self.rank@ == old(self).rank@,
                forall|j: int|
                    0 <= j < k ==> (#[trigger] self.queues()[j]) == old(self).queues()[j].push(
                        note,
                    ),
                forall|j: int|
                    k <= j < n ==> (#[trigger] self.observers@[j]) == old(self).observers@[j],
            decreases n - k,
        {
            proof {
                assert(self.queues()[k as int] == self.observers@[k as int]@);
                assert(old(self).queues()[k as int] == old(self).observers@[k as int]@);
            }
            let ghost before = self.observers@;
            let ghost before_q = self.queues();
            let mut q = self.observers.remove(k);
            q.push(note);
            self.observers.insert(k, q);
            proof {
                assert forall|j: int| 0 <= j < before.len() && j != k implies self.observers@[j]
                    == before[j] by {
                    if j > k {
                        assert(self.observers@[j] == before.remove(k as int)[j - 1]);
                    }
                }
                assert forall|j: int| 0 <= j < k + 1 implies (#[trigger] self.queues()[j]) == old(
                    self,
                ).queues()[j].push(note) by {
                    assert(self.queues()[j] == self.observers@[j]@);
                    if j < k {
                        assert(self.observers@[j] == before[j]);
                        assert(before_q[j] == old(self).queues()[j].push(note));
                        assert(before[j]@ == before_q[j]);
                    } else {
                        assert(self.observers@[j]@ == before[k as int]@.push(note));
                        assert(before[k as int] == old(self).observers@[k as int]);
                    }
                }
            }
            k = k + 1;
        }
    }

    /// Registers a new observer and replays the latest entry of every
    /// existing edge to it, in edge insertion order, before returning.
    /// The returned id indexes `take_notifications`.
    pub fn register_observer(&mut self) -> (r: usize)
        requires
            old(self).wf(),
        ensures
            final(self).wf(),
            r == old(self).queues().len(),
            final(self).index == old(self).index,
            final(self).edges@ == old(self).edges@,
            final(self).config == old(self).config,
            final(self).queues().len() == old(self).queues().len() + 1,
            forall|k: int|
                0 <= k < old(self).queues().len() ==> (#[trigger] final(self).queues()[k]) == old(
                    self,
                ).queues()[k],
            final(self).queues().last() == spec_replay(old(self).model()),
    {
        let n = self.edges.len();
        let mut replay: Vec<Notification> = Vec::new();
        let mut i: usize = 0;
        while i < n
            invariant
                i <= n,
                n == self.edges@.len(),
                *self == *old(self),
                self.wf(),
                replay@ == spec_replay(self.model()).take(i as int),
            decreases n - i,
        {
            proof {
                assert(self.model()[i as int] == self.edges@[i as int]@);
            }
            let e = &self.edges[i];
            let m = e.history.history.len();
            let note = Notification {
                from_id: e.from,
                to_id: e.to,
                transform: e.history.history[m - 1],
                kind: e.history.kind,
            };
            replay.push(note);
            proof {
                assert(replay@ =~= spec_replay(self.model()).take(i + 1));
            }
            i = i + 1;
        }
        proof {
            assert(replay@ =~= spec_replay(self.model()));
        }
        let id = self.observers.len();
        self.observers.push(replay);
        proof {
            assert(final(self).queues() =~= old(self).queues().push(
                final(self).observers@.last()@,
            ));
        }
        id
    }

    /// Hands out and clears the pending notifications of the observer.
    pub fn take_notifications(&mut self, id: usize) -> (r: Vec<Notification>)
        requires
            old(self).wf(),
            id < old(self).queues().len(),
        ensures
            final(self).wf(),
            r@ == old(self).queues()[id as int],
            final(self).index == old(self).index,
            final(self).edges@ == old(self).edges@,
            final(self).config == old(self).config,
            final(self).queues().len() == old(self).queues().len(),
            final(self).queues()[id as int] == Seq::<Notification>::empty(),
            forall|k: int|
                0 <= k < old(self).queues().len() && k != id
                    ==> (#[trigger] final(self).queues()[k]) == old(self).queues()[k],
    {
        proof {
            assert(old(self).queues()[id as int] == old(self).observers@[id as int]@);
        }
        let q = self.observers.remove(id);
        self.observers.insert(id, Vec::new());
        proof {
            assert(final(self).queues()[id as int] =~= Seq::<Notification>::empty());
        }
        q
    }

    /// Ingests one stamped pose for the directed pair `source -> target`.
    ///
    /// Ids are allocated for unknown names and never removed again. An
    /// existing edge only has its history appended to; a new edge is
    /// committed only where the target keeps a single incoming edge and
    /// the forest stays acyclic, and otherwise the graph is left exactly
    /// as it was. Every committed sample is posted to every observer.
    pub fn update(
        &mut self,
        source: String,
        target: String,
        stamped_isometry: StampedIsometry,
        kind: TransformType,
    ) -> (r: Result<(), TfError>)
        requires
            old(self).wf(),
        ensures
            final(self).wf(),
            final(self).config == old(self).config,
            old(self).index.names@.len() <= final(self).index.names@.len() <= old(
                self,
            ).index.names@.len() + 2,
            forall|j: int|
                0 <= j < old(self).index.names@.len() ==> final(self).index.names@[j] == old(
                    self,
                ).index.names@[j],
            spec_contains_name(final(self).index.names@, source@),
            spec_contains_name(final(self).index.names@, target@),
            ({
                let s = spec_id_of(final(self).index.names@, source@) as usize;
                let t = spec_id_of(final(self).index.names@, target@) as usize;
                &&& r == spec_update_result(old(self).model(), s, t, stamped_isometry)
                &&& final(self).model() == spec_update_edges(
                    old(self).model(),
                    s,
                    t,
                    stamped_isometry,
                    kind,
                    old(self).config.max_transform_history as int,
                )
                &&& r is Ok ==> all_notified(
                    old(self).queues(),
                    final(self).queues(),
                    (Notification {
                        from_id: s,
                        to_id: t,
                        transform: stamped_isometry,
                        kind: spec_note_kind(old(self).model(), s, t, kind),
                    }),
                )
                &&& r is Err ==> final(self).queues() == old(self).queues()
            }),
    {
        let ghost source_v = source@;
        let ghost target_v = target@;
        let s = self.index.index(source);
        let t = self.index.index(target);
        proof {
            assert(self.index.names@[s as int]@ == source_v);
            assert(self.index.names@[t as int]@ == target_v);
            let ws = spec_id_of(self.index.names@, source_v);
            assert(self.index.names@[ws]@ == source_v);
            if ws != s {
                assert(false);
            }
            let wt = spec_id_of(self.index.names@, target_v);
            if wt != t {
                assert(false);
            }
            assert(self.model() == old(self).model());
        }
        let ghost m0 = self.model();
        let cap = self.config.max_transform_history;
        match self.edge_position(s, t) {
            Some(i) => {
                let ghost before_edges = self.edges@;
                let mut e = self.edges.remove(i);
                let note_kind = e.history.kind;
                let res = e.history.update(stamped_isometry);
                let ghost e_new = e;
                self.edges.insert(i, e);
                proof {
                    assert forall|j: int| 0 <= j < before_edges.len() && j != i
                        implies self.edges@[j] == before_edges[j] by {
                        if j > i {
                            assert(self.edges@[j] == before_edges.remove(i as int)[j - 1]);
                        }
                    }
                    assert(self.edges@[i as int] == e_new);
                    assert(self.model() =~= m0.update(i as int, e_new@));
                    match spec_append(m0[i as int].history, m0[i as int].cap, stamped_isometry) {
                        Ok(hh) => {
                            assert(e_new@ == EdgeModel { history: hh, ..m0[i as int] });
                            assert(self.model() =~= spec_update_edges(
                                m0,
                                s,
                                t,
                                stamped_isometry,
                                kind,
                                cap as int,
                            ));
                        },
                        Err(_) => {
                            assert(e_new@ == m0[i as int]);
                            assert(self.model() =~= m0);
                        },
                    }
                    assert forall|j: int| 0 <= j < self.model().len() implies (
                        #[trigger] self.model()[j]).from == m0[j].from && self.model()[j].to
                        == m0[j].to by {}
                }
                match res {
                    Ok(()) => {
                        self.notify_all(
                            Notification {
                                from_id: s,
                                to_id: t,
                                transform: stamped_isometry,
                                kind: note_kind,
                            },
                        );
                        Ok(())
                    },
                    Err(e2) => Err(e2),
                }
            },
            None => {
                match self.parent_of_exec(t) {
                    Some(_) => {
                        return Err(TfError::InvalidGraph);
                    },
                    None => {},
                }
                if self.chain_contains(s, t) {
                    return Err(TfError::InvalidGraph);
                }
                proof {
                    lemma_hits_unfold(m0, s, t);
                    assert(s != t);
                }
                let mut h = TransformHistory::new(kind, cap);
                let res0 = h.update(stamped_isometry);
                proof {
                    assert(res0 == Ok::<(), TfError>(()));
                    assert(h.history@ =~= seq![stamped_isometry]);
                }
                let ghost old_rank = self.rank@;
                let ghost rs: nat = if old_rank.dom().contains(s) {
                    old_rank[s]
                } else {
                    0
                };
                self.edges.push(Edge { from: s, to: t, history: h });
                self.rank = Ghost(
                    Map::new(
                        |w: usize| old_rank.dom().contains(w) || w == s || w == t,
                        |w: usize|
                            if hits(m0, w, t) {
                                (if old_rank.dom().contains(w) {
                                    old_rank[w]
                                } else {
                                    0
                                }) + rs + 1
                            } else if old_rank.dom().contains(w) {
                                old_rank[w]
                            } else {
                                0
                            },
                    ),
                );
                proof {
                    let m1 = self.model();
                    let ne = EdgeModel {
                        from: s,
                        to: t,
                        kind: kind,
                        cap: cap as int,
                        history: seq![stamped_isometry],
                    };
                    assert(m1 =~= m0.push(ne));
                    let nr = self.rank@;
                    assert forall|i2: int| 0 <= i2 < m1.len() implies nr.dom().contains(
                        (#[trigger] m1[i2]).from,
                    ) && nr.dom().contains(m1[i2].to) && nr[m1[i2].from] < nr[m1[i2].to] by {
                        if i2 < m0.len() {
                            let a = m0[i2].from;
                            let b = m0[i2].to;
                            assert(b != t);
                            assert(has_parent(m0, b));
                            let kk = choose|kk: int| 0 <= kk < m0.len() && m0[kk].to == b;
                            if kk != i2 {
                                assert(false);
                            }
                            assert(parent_of(m0, b) == a);
                            lemma_hits_unfold(m0, b, t);
                            assert(hits(m0, b, t) == hits(m0, a, t));
                            assert(old_rank[a] < old_rank[b]);
                        } else {
                            assert(m1[i2] == ne);
                            assert(!hits(m0, s, t));
                            assert(hits(m0, t, t)) by {
                                assert(on_chain(m0, t, t, 0));
                            }
                        }
                    }
                    assert(ranked(m1, nr));
                    assert(one_incoming(m1));
                    assert(m1 =~= spec_update_edges(m0, s, t, stamped_isometry, kind, cap as int));
                }
                self.notify_all(
                    Notification { from_id: s, to_id: t, transform: stamped_isometry, kind },
                );
                Ok(())
            },
        }
    }

    /// Climbs the ancestor chain of `f`. Where `t` is met on the way,
    /// the returned flag is set and the chain ends at `t`; otherwise the
    /// chain is complete: it holds every ancestor of `f`, and not `t`.
    fn ascend(&self, f: usize, t: usize) -> (r: (Vec<usize>, bool))
        requires
            one_incoming(self.model()),
            ranked(self.model(), self.rank@),
            f != t,
        ensures
            ({
                let p = r.0@;
                let m = self.model();
                &&& p.len() >= 1
                &&& p[0] == f
                &&& forall|i: int| 0 <= i < p.len() - 1 ==> has_edge(m, p[i + 1], #[trigger] p[i])
                &&& forall|a: usize| p.contains(a) ==> hits(m, f, a)
                &&& (r.1 ==> p.last() == t)
                &&& forall|i: int, j: int|
                    0 <= i < j < p.len() ==> self.rank@[p[j]] < self.rank@[p[i]]
                &&& forall|i: int, j: int| 0 <= i < j < p.len() ==> p[i] != p[j]
                &&& (!r.1 ==> !p.contains(t) && (forall|a: usize|
                    #[trigger] hits(m, f, a) ==> p.contains(a)))
            }),
    {
        let ghost m = self.model();
        let mut path1: Vec<usize> = Vec::new();
        path1.push(f);
        let mut cur = f;
        let mut at_root = false;
        proof {
            assert(hits(m, f, f)) by {
                assert(on_chain(m, f, f, 0));
            }
            assert forall|a: usize| path1@.contains(a) implies hits(m, f, a) by {
                let i = choose|i: int| 0 <= i < path1@.len() && path1@[i] == a;
                assert(a == f);
            }
        }
        while !at_root
            invariant
                one_incoming(m),
                ranked(m, self.rank@),
                m == self.model(),
                f != t,
                path1@.len() >= 1,
                path1@[0] == f,
                path1@.last() == cur,
                !path1@.contains(t),
                forall|i: int|
                    0 <= i < path1@.len() - 1 ==> has_edge(m, path1@[i + 1], #[trigger] path1@[i]),
                forall|a: usize| path1@.contains(a) ==> hits(m, f, a),
                forall|a: usize| #[trigger] hits(m, cur, a) ==> hits(m, f, a),
                forall|a: usize|
                    #[trigger] hits(m, f, a) ==> path1@.contains(a) || hits(m, cur, a),
                forall|i: int, j: int|
                    0 <= i < j < path1@.len() ==> self.rank@[path1@[j]] < self.rank@[path1@[i]],
                at_root ==> !has_parent(m, cur),
            decreases self.rank@[cur] + if at_root {
                0int
            } else {
                1int
            },
        {
            match self.parent_of_exec(cur) {
                None => {
                    at_root = true;
                },
                Some(p) => {
                    proof {
                        lemma_hits_unfold(m, cur, p);
                        lemma_hits_unfold(m, p, p);
                        assert(hits(m, cur, p));
                        assert forall|a: usize| #[trigger] hits(m, p, a) implies hits(
                            m,
                            cur,
                            a,
                        ) by {
                            lemma_hits_unfold(m, cur, a);
                        }
                        assert forall|a: usize| #[trigger] hits(m, f, a) implies path1@.push(
                            p,
                        ).contains(a) || hits(m, p, a) by {
                            if path1@.contains(a) {
                                let i = choose|i: int| 0 <= i < path1@.len() && path1@[i] == a;
                                assert(path1@.push(p)[i] == a);
                            } else {
                                assert(hits(m, cur, a));
                                lemma_hits_unfold(m, cur, a);
                                if cur == a {
                                    assert(path1@.last() == cur);
                                }
                            }
                        }
                        assert forall|a: usize| path1@.push(p).contains(a) implies hits(
                            m,
                            f,
                            a,
                        ) by {
                            let i = choose|i: int|
                                0 <= i < path1@.push(p).len() && path1@.push(p)[i] == a;
                            if i < path1@.len() {
                                assert(path1@[i] == a);
                                assert(path1@.contains(a));
                            } else {
                                assert(a == p);
                            }
                        }
                        let kk = choose|k: int| 0 <= k < m.len() && m[k].to == cur;
                        assert(has_edge(m, p, cur)) by {
                            assert(m[kk].from == p && m[kk].to == cur);
                        }
                        assert(self.rank@[p] < self.rank@[cur]) by {
                            assert(m[kk].from == p);
                        }
                        assert forall|i: int, j: int|
                            0 <= i < j < path1@.push(p).len() implies self.rank@[path1@.push(p)[j]]
                            < self.rank@[path1@.push(p)[i]] by {
                            if j < path1@.len() {
                                assert(path1@.push(p)[i] == path1@[i]);
                                assert(path1@.push(p)[j] == path1@[j]);
                            } else {
                                assert(path1@.push(p)[j] == p);
                                assert(path1@.push(p)[i] == path1@[i]);
                                if i < path1@.len() - 1 {
                                    assert(self.rank@[cur] < self.rank@[path1@[i]]) by {
                                        assert(path1@.last() == cur);
                                    }
                                }
                            }
                        }
                    }
                    path1.push(p);
                    if p == t {
                        proof {
                            assert forall|i: int, j: int| 0 <= i < j < path1@.len()
                                implies path1@[i] != path1@[j] by {
                                assert(self.rank@[path1@[j]] < self.rank@[path1@[i]]);
                            }
                        }
                        return (path1, true);
                    }
                    cur = p;
                },
            }
        }
        proof {
            assert forall|i: int, j: int| 0 <= i < j < path1@.len() implies path1@[i]
                != path1@[j] by {
                assert(self.rank@[path1@[j]] < self.rank@[path1@[i]]);
            }
        }
        (path1, false)
    }

    /// Climbs the ancestor chain of `t` until it meets `path1`, the
    /// complete ancestor chain of some frame `f`. Returns the climbed
    /// chain together with the meeting point, or `None` when the chains
    /// never meet, in which case `f` and `t` lie in different trees.
    fn descend_from(&self, t: usize, path1: &Vec<usize>, Ghost(f): Ghost<usize>) -> (r: Option<
        (Vec<usize>, usize),
    >)
        requires
            one_incoming(self.model()),
            ranked(self.model(), self.rank@),
            !path1@.contains(t),
            path1@.len() >= 1,
            forall|a: usize| path1@.contains(a) ==> hits(self.model(), f, a),
            forall|a: usize| #[trigger] hits(self.model(), f, a) ==> path1@.contains(a),
        ensures
            ({
                let m = self.model();
                match r {
                    Some((path2, p)) => {
                        &&& path2@.len() >= 1
                        &&& path2@[0] == t
                        &&& forall|i: int|
                            0 <= i < path2@.len() - 1 ==> has_edge(
                                m,
                                path2@[i + 1],
                                #[trigger] path2@[i],
                            )
                        &&& path1@.contains(p)
                        &&& has_edge(m, p, path2@.last())
                        &&& forall|i: int, j: int|
                            0 <= i < j < path2@.len() ==> path2@[i] != path2@[j]
                        &&& forall|x: usize| path2@.contains(x) ==> !path1@.contains(x)
                        &&& hits(m, f, p)
                        &&& hits(m, t, p)
                        &&& connected(m, f, t)
                    },
                    None => !connected(m, f, t),
                }
            }),
    {
        let ghost m = self.model();
        let mut path2: Vec<usize> = Vec::new();
        path2.push(t);
        let mut cur2 = t;
        proof {
            assert(hits(m, t, t)) by {
                assert(on_chain(m, t, t, 0));
            }
            assert forall|a: usize| path2@.contains(a) implies hits(m, t, a) by {
                let i = choose|i: int| 0 <= i < path2@.len() && path2@[i] == a;
                assert(a == t);
            }
            assert forall|x: usize| path2@.contains(x) implies !path1@.contains(x) by {
                let i = choose|i: int| 0 <= i < path2@.len() && path2@[i] == x;
                assert(x == t);
            }
        }
        loop
            invariant
                one_incoming(m),
                ranked(m, self.rank@),
                m == self.model(),
                path1@.len() >= 1,
                !path1@.contains(t),
                forall|a: usize| path1@.contains(a) ==> hits(m, f, a),
                forall|a: usize| #[trigger] hits(m, f, a) ==> path1@.contains(a),
                path2@.len() >= 1,
                path2@[0] == t,
                path2@.last() == cur2,
                !path1@.contains(cur2),
                forall|i: int|
                    0 <= i < path2@.len() - 1 ==> has_edge(m, path2@[i + 1], #[trigger] path2@[i]),
                forall|a: usize| path2@.contains(a) ==> hits(m, t, a),
                forall|i: int, j: int|
                    0 <= i < j < path2@.len() ==> self.rank@[path2@[j]] < self.rank@[path2@[i]],
                forall|x: usize| path2@.contains(x) ==> !path1@.contains(x),
                forall|a: usize| #[trigger] hits(m, cur2, a) ==> hits(m, t, a),
                forall|a: usize|
                    path1@.contains(a) && #[trigger] hits(m, t, a) ==> hits(m, cur2, a),
            decreases self.rank@[cur2],
        {
            match self.parent_of_exec(cur2) {
                None => {
                    proof {
                        if connected(m, f, t) {
                            let a = choose|a: usize| hits(m, f, a) && hits(m, t, a);
                            assert(path1@.contains(a));
                            assert(hits(m, cur2, a));
                            lemma_hits_unfold(m, cur2, a);
                            assert(a == cur2);
                            assert(false);
                        }
                    }
                    return None;
                },
                Some(p) => {
                    proof {
                        let kk = choose|k: int| 0 <= k < m.len() && m[k].to == cur2;
                        assert(has_edge(m, p, cur2)) by {
                            assert(m[kk].from == p && m[kk].to == cur2);
                        }
                        assert(self.rank@[p] < self.rank@[cur2]) by {
                            assert(m[kk].from == p);
                        }
                        lemma_hits_unfold(m, cur2, p);
                        lemma_hits_unfold(m, p, p);
                        assert(hits(m, cur2, p));
                        assert forall|a: usize| #[trigger] hits(m, p, a) implies hits(
                            m,
                            cur2,
                            a,
                        ) by {
                            lemma_hits_unfold(m, cur2, a);
                        }
                    }
                    if contains_id(path1, p) {
                        proof {
                            assert(hits(m, t, p));
                            assert(hits(m, f, p));
                            assert(connected(m, f, t));
                            assert forall|i: int, j: int| 0 <= i < j < path2@.len()
                                implies path2@[i] != path2@[j] by {
                                assert(self.rank@[path2@[j]] < self.rank@[path2@[i]]);
                            }
                        }
                        return Some((path2, p));
                    }
                    proof {
                        assert forall|a: usize| path2@.push(p).contains(a) implies hits(
                            m,
                            t,
                            a,
                        ) by {
                            let i = choose|i: int|
                                0 <= i < path2@.push(p).len() && path2@.push(p)[i] == a;
                            if i < path2@.len() {
                                assert(path2@[i] == a);
                                assert(path2@.contains(a));
                            } else {
                                assert(a == p);
                            }
                        }
                        assert forall|a: usize|
                            path1@.contains(a) && #[trigger] hits(m, t, a) implies hits(
                            m,
                            p,
                            a,
                        ) by {
                            assert(hits(m, cur2, a));
                            lemma_hits_unfold(m, cur2, a);
                            if cur2 == a {
                                assert(path1@.contains(cur2));
                            }
                        }
                        assert forall|i: int, j: int|
                            0 <= i < j < path2@.push(p).len() implies self.rank@[path2@.push(p)[j]]
                            < self.rank@[path2@.push(p)[i]] by {
                            if j < path2@.len() {
                                assert(path2@.push(p)[i] == path2@[i]);
                                assert(path2@.push(p)[j] == path2@[j]);
                            } else {
                                assert(path2@.push(p)[j] == p);
                                assert(path2@.push(p)[i] == path2@[i]);
                                if i < path2@.len() - 1 {
                                    assert(self.rank@[cur2] < self.rank@[path2@[i]]) by {
                                        assert(path2@.last() == cur2);
                                    }
                                }
                            }
                        }
                        assert forall|x: usize| path2@.push(p).contains(x)
                            implies !path1@.contains(x) by {
                            let i = choose|i: int|
                                0 <= i < path2@.push(p).len() && path2@.push(p)[i] == x;
                            if i < path2@.len() {
                                assert(path2@[i] == x);
                                assert(path2@.contains(x));
                            } else {
                                assert(x == p);
                            }
                        }
                    }
                    path2.push(p);
                    cur2 = p;
                },
            }
        }
    }

    /// Searches for the path between two frames, exploiting the forest
    /// shape: both frames' ancestor chains are climbed and joined at the
    /// lowest common ancestor. The result is the one simple path between
    /// the two: any walk without repeated nodes between them equals it.
    /// Unknown names are given ids, as `update` does. Returns `None`
    /// exactly when the two frames lie in different trees.
    pub fn find_path(&mut self, from: String, to: String) -> (r: Option<Vec<usize>>)
        requires
            old(self).wf(),
        ensures
            final(self).wf(),
            final(self).model() == old(self).model(),
            final(self).queues() == old(self).queues(),
            final(self).config == old(self).config,
            final(self).rank@ == old(self).rank@,
            old(self).index.names@.len() <= final(self).index.names@.len() <= old(
                self,
            ).index.names@.len() + 2,
            forall|j: int|
                0 <= j < old(self).index.names@.len() ==> final(self).index.names@[j] == old(
                    self,
                ).index.names@[j],
            spec_contains_name(final(self).index.names@, from@),
            spec_contains_name(final(self).index.names@, to@),
            spec_contains_name(old(self).index.names@, from@) && spec_contains_name(
                old(self).index.names@,
                to@,
            ) ==> final(self).index.names@ == old(self).index.names@,
            ({
                let f = spec_id_of(final(self).index.names@, from@) as usize;
                let t = spec_id_of(final(self).index.names@, to@) as usize;
                &&& (r is Some <==> (f == t || connected(old(self).model(), f, t)))
                &&& (f == t ==> (match r {
                    Some(p) => p@ == seq![f],
                    None => false,
                }))
                &&& match r {
                    Some(p) => valid_path(old(self).model(), p@, f, t) && (forall|q: Seq<usize>|
                        valid_path(old(self).model(), q, f, t) ==> q == p@),
                    None => true,
                }
            }),
    {
        let ghost from_v = from@;
        let ghost to_v = to@;
        let f = self.index.index(from);
        let t = self.index.index(to);
        proof {
            assert(self.index.names@[f as int]@ == from_v);
            assert(self.index.names@[t as int]@ == to_v);
            let wf_ = spec_id_of(self.index.names@, from_v);
            if wf_ != f {
                assert(self.index.names@[wf_]@ == from_v);
                assert(false);
            }
            let wt_ = spec_id_of(self.index.names@, to_v);
            if wt_ != t {
                assert(false);
            }
        }
        let ghost m = self.model();
        if f == t {
            let mut p: Vec<usize> = Vec::new();
            p.push(f);
            proof {
                assert(p@ =~= seq![f]);
                assert forall|q: Seq<usize>| valid_path(m, q, f, t) implies q == p@ by {
                    if q.len() >= 2 {
                        assert(q[0] == q[q.len() - 1]);
                        assert(false);
                    }
                    assert(q =~= p@);
                }
            }
            return Some(p);
        }
        let (path1, found) = self.ascend(f, t);
        if found {
            proof {
                assert(valid_path(m, path1@, f, t)) by {
                    assert(forall|i: int|
                        0 <= i < path1@.len() - 1 ==> has_edge(
                            m,
                            path1@[i + 1],
                            #[trigger] path1@[i],
                        ));
                }
                assert(connected(m, f, t)) by {
                    assert(path1@.contains(t)) by {
                        assert(path1@.last() == t);
                    }
                    assert(hits(m, f, t));
                    assert(hits(m, t, t)) by {
                        assert(on_chain(m, t, t, 0));
                    }
                }
                assert forall|q: Seq<usize>| valid_path(m, q, f, t) implies q == path1@ by {
                    lemma_simple_path_unique(m, self.rank@, q, path1@, f, t);
                }
            }
            return Some(path1);
        }
        match self.descend_from(t, &path1, Ghost(f)) {
            None => None,
            Some((path2, p)) => {
                let joined = join_paths(path1, &path2, p, Ghost(m), Ghost(f), Ghost(t));
                proof {
                    assert forall|q: Seq<usize>| valid_path(m, q, f, t) implies q == joined@ by {
                        lemma_simple_path_unique(m, self.rank@, q, joined@, f, t);
                    }
                }
                Some(joined)
            },
        }
    }


    /// The latest pose one step of a walk contributes, per `step_latest`.
    fn step_latest_exec(&self, a: usize, b: usize) -> (r: Pose)
        requires
            self.wf(),
            adjacent(self.model(), a, b),
        ensures
            r == step_latest(self.model(), a, b),
    {
        let ghost m = self.model();
        match self.edge_position(a, b) {
            Some(e) => {
                let eh = &self.edges[e];
                let hl = eh.history.history.len();
                proof {
                    assert(self.model()[e as int] == self.edges@[e as int]@);
                }
                eh.history.history[hl - 1].isometry
            },
            None => {
                match self.edge_position(b, a) {
                    Some(e) => {
                        let eh = &self.edges[e];
                        let hl = eh.history.history.len();
                        proof {
                            assert(self.model()[e as int] == self.edges@[e as int]@);
                        }
                        let q = eh.history.history[hl - 1].isometry;
                        crate::math::inverse(&q)
                    },
                    None => {
                        // unreachable: the walk is adjacent at every pair
                        proof {
                            assert(false);
                        }
                        crate::math::identity()
                    },
                }
            },
        }
    }

    /// The interpolated pose one step of a walk contributes at an
    /// instant, per `step_at`.
    fn step_at_exec(&self, a: usize, b: usize, time: i64) -> (r: Result<Pose, TfError>)
        requires
            self.wf(),
            adjacent(self.model(), a, b),
        ensures
            r == step_at(self.model(), a, b, time),
    {
        let ghost m = self.model();
        match self.edge_position(a, b) {
            Some(e) => {
                let eh = &self.edges[e];
                proof {
                    assert(self.model()[e as int] == self.edges@[e as int]@);
                }
                eh.history.interpolate_isometry_at_time(time)
            },
            None => {
                match self.edge_position(b, a) {
                    Some(e) => {
                        let eh = &self.edges[e];
                        proof {
                            assert(self.model()[e as int] == self.edges@[e as int]@);
                        }
                        match eh.history.interpolate_isometry_at_time(time) {
                            Ok(q) => Ok(crate::math::inverse(&q)),
                            Err(e2) => Err(e2),
                        }
                    },
                    None => {
                        // unreachable: the walk is adjacent at every pair
                        proof {
                            assert(false);
                        }
                        Err(TfError::CouldNotFindTransform)
                    },
                }
            },
        }
    }

    /// Composes the latest pose of every edge along a walk, left to
    /// right.
    #[verifier::rlimit(100)]
    fn compose_latest_along(
        &self,
        path: &Vec<usize>,
        Ghost(s): Ghost<usize>,
        Ghost(t): Ghost<usize>,
    ) -> (r: Pose)
        requires
            self.wf(),
            valid_path(self.model(), path@, s, t),
        ensures
            r == fold_latest(self.model(), path@),
    {
        let ghost m = self.model();
        let mut iso = crate::math::identity();
        let n = path.len();
        let mut i: usize = 0;
        proof {
            assert(path@.take(1) =~= seq![path@[0]]);
        }
        while i + 1 < n
            invariant
                i + 1 <= n,
                n == path@.len(),
                self.wf(),
                m == self.model(),
                forall|k: int|
                    0 <= k < path@.len() - 1 ==> adjacent(m, #[trigger] path@[k], path@[k + 1]),
                iso == fold_latest(m, path@.take(i + 1)),
            decreases n - i,
        {
            let a = path[i];
            let b = path[i + 1];
            proof {
                assert(adjacent(m, path@[i as int], path@[i as int + 1]));
            }
            let step = self.step_latest_exec(a, b);
            iso = crate::math::compose(&iso, &step);
            proof {
                assert(path@.take(i + 2).drop_last() =~= path@.take(i + 1));
                assert(path@.take(i + 2).last() == path@[i as int + 1]);
                assert(path@.take(i + 2)[path@.take(i + 2).len() - 2] == path@[i as int]);
                assert(iso == fold_latest(m, path@.take(i + 2)));
            }
            i = i + 1;
        }
        proof {
            assert(path@.take(n as int) =~= path@);
        }
        iso
    }

    /// Composes the interpolated pose of every edge along a walk at an
    /// instant; the first failing edge's error is returned.
    #[verifier::rlimit(100)]
    fn compose_at_along(
        &self,
        path: &Vec<usize>,
        time: i64,
        Ghost(s): Ghost<usize>,
        Ghost(t): Ghost<usize>,
    ) -> (r: Result<Pose, TfError>)
        requires
            self.wf(),
            valid_path(self.model(), path@, s, t),
        ensures
            r == fold_at(self.model(), path@, time),
    {
        let ghost m = self.model();
        let mut iso = crate::math::identity();
        let n = path.len();
        let mut i: usize = 0;
        proof {
            assert(path@.take(1) =~= seq![path@[0]]);
        }
        while i + 1 < n
            invariant
                i + 1 <= n,
                n == path@.len(),
                self.wf(),
                m == self.model(),
                forall|k: int|
                    0 <= k < path@.len() - 1 ==> adjacent(m, #[trigger] path@[k], path@[k + 1]),
                fold_at(m, path@.take(i + 1), time) == Ok::<Pose, TfError>(iso),
            decreases n - i,
        {
            let a = path[i];
            let b = path[i + 1];
            proof {
                assert(adjacent(m, path@[i as int], path@[i as int + 1]));
            }
            let step_res = self.step_at_exec(a, b, time);
            proof {
                assert(path@.take(i + 2).drop_last() =~= path@.take(i + 1));
                assert(path@.take(i + 2).last() == path@[i as int + 1]);
                assert(path@.take(i + 2)[path@.take(i + 2).len() - 2] == path@[i as int]);
            }
            match step_res {
                Ok(st) => {
                    iso = crate::math::compose(&iso, &st);
                    proof {
                        assert(fold_at(m, path@.take(i + 2), time) == Ok::<Pose, TfError>(iso));
                    }
                },
                Err(e2) => {
                    proof {
                        assert(fold_at(m, path@.take(i + 2), time) == Err::<Pose, TfError>(e2));
                        lemma_fold_at_prefix_error(m, path@, i + 2, time);
                    }
                    return Err(e2);
                },
            }
            i = i + 1;
        }
        proof {
            assert(path@.take(n as int) =~= path@);
        }
        Ok(iso)
    }

    /// Composes the latest pose along the walk found between the frames.
    ///
    /// This never interpolates: each edge contributes its most recent
    /// sample (inverted where the walk runs against the edge), so the
    /// answer may be stale. Succeeds exactly when both frames are known
    /// and lie in the same tree; the returned stamp is zero.
    #[verifier::rlimit(100)]
    #[verifier::loop_isolation(false)]
    pub fn lookup_latest_transform(&mut self, source: String, target: String) -> (r: Result<
        StampedIsometry,
        TfError,
    >)
        requires
            old(self).wf(),
        ensures
            final(self).wf(),
            final(self).model() == old(self).model(),
            final(self).queues() == old(self).queues(),
            final(self).config == old(self).config,
            final(self).index.names@ == old(self).index.names@,
            ({
                let m = old(self).model();
                let known = spec_contains_name(old(self).index.names@, source@)
                    && spec_contains_name(old(self).index.names@, target@);
                let s = spec_id_of(old(self).index.names@, source@) as usize;
                let t = spec_id_of(old(self).index.names@, target@) as usize;
                &&& !known ==> r == Err::<StampedIsometry, TfError>(TfError::CouldNotFindTransform)
                &&& (known && s != t && !connected(m, s, t)) ==> r == Err::<
                    StampedIsometry,
                    TfError,
                >(TfError::CouldNotFindTransform)
                &&& (known && (s == t || connected(m, s, t))) ==> ((exists|p: Seq<usize>|
                    valid_path(m, p, s, t) && r == Ok::<StampedIsometry, TfError>(
                        (StampedIsometry { isometry: fold_latest(m, p), stamp: 0 }),
                    )) && (forall|p: Seq<usize>|
                    valid_path(m, p, s, t) ==> r == Ok::<StampedIsometry, TfError>(
                        (StampedIsometry { isometry: fold_latest(m, p), stamp: 0 }),
                    )))
                &&& (known && s == t) ==> r == Ok::<StampedIsometry, TfError>(
                    (StampedIsometry { isometry: identity_pose(), stamp: 0 }),
                )
            }),
    {
        if !self.index.contains(&source) || !self.index.contains(&target) {
            return Err(TfError::CouldNotFindTransform);
        }
        let ghost m = self.model();
        let ghost s_id = spec_id_of(self.index.names@, source@) as usize;
        let ghost t_id = spec_id_of(self.index.names@, target@) as usize;
        match self.find_path(source, target) {
            None => Err(TfError::CouldNotFindTransform),
            Some(path) => {
                let iso = self.compose_latest_along(&path, Ghost(s_id), Ghost(t_id));
                let out: Result<StampedIsometry, TfError> = Ok(
                    StampedIsometry { isometry: iso, stamp: 0 },
                );
                proof {
                    assert(exists|p: Seq<usize>|
                        valid_path(m, p, s_id, t_id) && out == Ok::<StampedIsometry, TfError>(
                            (StampedIsometry { isometry: fold_latest(m, p), stamp: 0 }),
                        )) by {
                        assert(valid_path(m, path@, s_id, t_id));
                    }
                    assert forall|p: Seq<usize>| valid_path(m, p, s_id, t_id) implies out == Ok::<
                        StampedIsometry,
                        TfError,
                    >((StampedIsometry { isometry: fold_latest(m, p), stamp: 0 })) by {
                        lemma_simple_path_unique(m, self.rank@, p, path@, s_id, t_id);
                    }
                    if s_id == t_id {
                        assert(path@ == seq![s_id]);
                        assert(fold_latest(m, path@) == identity_pose());
                    }
                }
                out
            },
        }
    }

    /// Composes the transform between the frames at the requested instant,
    /// interpolating on every dynamic edge of the walk. The first failing
    /// edge decides the error, walking from the source side; unknown
    /// frames or frames in different trees fail with
    /// `CouldNotFindTransform`. The returned stamp is the requested
    /// instant.
    #[verifier::rlimit(100)]
    #[verifier::loop_isolation(false)]
    pub fn lookup_transform(&mut self, source: String, target: String, time: i64) -> (r: Result<
        StampedIsometry,
        TfError,
    >)
        requires
            old(self).wf(),
        ensures
            final(self).wf(),
            final(self).model() == old(self).model(),
            final(self).queues() == old(self).queues(),
            final(self).config == old(self).config,
            final(self).index.names@ == old(self).index.names@,
            ({
                let m = old(self).model();
                let known = spec_contains_name(old(self).index.names@, source@)
                    && spec_contains_name(old(self).index.names@, target@);
                let s = spec_id_of(old(self).index.names@, source@) as usize;
                let t = spec_id_of(old(self).index.names@, target@) as usize;
                &&& !known ==> r == Err::<StampedIsometry, TfError>(TfError::CouldNotFindTransform)
                &&& (known && s != t && !connected(m, s, t)) ==> r == Err::<
                    StampedIsometry,
                    TfError,
                >(TfError::CouldNotFindTransform)
                &&& (known && (s == t || connected(m, s, t))) ==> ((exists|p: Seq<usize>|
                    valid_path(m, p, s, t) && r == (match fold_at(m, p, time) {
                        Ok(q) => Ok::<StampedIsometry, TfError>(
                            (StampedIsometry { isometry: q, stamp: time }),
                        ),
                        Err(e) => Err::<StampedIsometry, TfError>(e),
                    })) && (forall|p: Seq<usize>|
                    valid_path(m, p, s, t) ==> r == (match fold_at(m, p, time) {
                        Ok(q) => Ok::<StampedIsometry, TfError>(
                            (StampedIsometry { isometry: q, stamp: time }),
                        ),
                        Err(e) => Err::<StampedIsometry, TfError>(e),
                    })))
                &&& (known && s == t) ==> r == Ok::<StampedIsometry, TfError>(
                    (StampedIsometry { isometry: identity_pose(), stamp: time }),
                )
            }),
    {
        if !self.index.contains(&source) || !self.index.contains(&target) {
            return Err(TfError::CouldNotFindTransform);
        }
        let ghost m = self.model();
        let ghost s_id = spec_id_of(self.index.names@, source@) as usize;
        let ghost t_id = spec_id_of(self.index.names@, target@) as usize;
        match self.find_path(source, target) {
            None => Err(TfError::CouldNotFindTransform),
            Some(path) => {
                let res = self.compose_at_along(&path, time, Ghost(s_id), Ghost(t_id));
                let out: Result<StampedIsometry, TfError> = match res {
                    Ok(q) => Ok(StampedIsometry { isometry: q, stamp: time }),
                    Err(e) => Err(e),
                };
                proof {
                    assert(exists|p: Seq<usize>|
                        valid_path(m, p, s_id, t_id) && out == (match fold_at(m, p, time) {
                            Ok(q) => Ok::<StampedIsometry, TfError>(
                                (StampedIsometry { isometry: q, stamp: time }),
                            ),
                            Err(e) => Err::<StampedIsometry, TfError>(e),
                        })) by {
                        assert(valid_path(m, path@, s_id, t_id));
                        assert(res == fold_at(m, path@, time));
                    }
                    assert forall|p: Seq<usize>| valid_path(m, p, s_id, t_id) implies out
                        == (match fold_at(m, p, time) {
                        Ok(q) => Ok::<StampedIsometry, TfError>(
                            (StampedIsometry { isometry: q, stamp: time }),
                        ),
                        Err(e) => Err::<StampedIsometry, TfError>(e),
                    }) by {
                        lemma_simple_path_unique(m, self.rank@, p, path@, s_id, t_id);
                        assert(res == fold_at(m, path@, time));
                    }
                    if s_id == t_id {
                        assert(path@ == seq![s_id]);
                        assert(fold_at(m, path@, time) == Ok::<Pose, TfError>(identity_pose()));
                    }
                }
                out
            },
        }
    }

    /// Renders the graph as a DOT description: one line per node in the
    /// graph, named by its frame, and one line per edge, labeled with
    /// its latest pose and stamp.
    #[verifier::rlimit(100)]
    pub fn visualize(&self) -> (r: String)
        requires
            self.wf(),
        ensures
            r@.len() > 10,
            r@.take(10) == "digraph {\n"@,
            r@.last() == '}',
            forall|v: usize|
                v < self.index.names@.len() && in_graph(self.model(), v) ==> contains_seq(
                    r@,
                    spec_node_stmt(v as int, self.index.names@[v as int]@),
                ),
            forall|i: int|
                0 <= i < self.model().len() ==> contains_seq(
                    r@,
                    spec_edge_stmt(
                        (#[trigger] self.model()[i]).from as int,
                        self.model()[i].to as int,
                        crate::math::edge_label_of(
                            self.model()[i].history.last().isometry,
                            self.model()[i].history.last().stamp,
                        ),
                    ),
                ),
    {
        proof {
            reveal_strlit("digraph {\n");
            reveal_strlit("}");
            reveal_strlit("    ");
            reveal_strlit(" [label=\"");
            reveal_strlit("\"]\n");
            reveal_strlit(" -> ");
        }
        let mut dot = String::from_str("digraph {\n");
        let n = self.index.names.len();
        let mut v: usize = 0;
        while v < n
            invariant
                v <= n,
                n == self.index.names@.len(),
                self.wf(),
                dot@.len() >= 10,
                dot@.take(10) == "digraph {\n"@,
                forall|v2: usize|
                    v2 < v && in_graph(self.model(), v2) ==> contains_seq(
                        dot@,
                        spec_node_stmt(v2 as int, self.index.names@[v2 as int]@),
                    ),
            decreases n - v,
        {
            let ghost before = dot@;
            if self.contains_node(v) {
                dot.append("    ");
                let label = dec_string(v);
                dot.append(label.as_str());
                dot.append(" [label=\"");
                dot.append(self.index.names[v].as_str());
                dot.append("\"]\n");
                proof {
                    reveal_strlit("    ");
                    reveal_strlit(" [label=\"");
                    reveal_strlit("\"]\n");
                    let stmt = spec_node_stmt(v as int, self.index.names@[v as int]@);
                    assert(dot@ =~= (before + "    "@) + stmt + Seq::<char>::empty());
                    lemma_contains_at(before + "    "@, stmt, Seq::<char>::empty());
                    assert forall|v2: usize|
                        v2 < v + 1 && in_graph(self.model(), v2) implies contains_seq(
                        dot@,
                        spec_node_stmt(v2 as int, self.index.names@[v2 as int]@),
                    ) by {
                        if v2 < v {
                            lemma_contains_extend(
                                before,
                                dot@.skip(before.len() as int),
                                spec_node_stmt(v2 as int, self.index.names@[v2 as int]@),
                            );
                            assert(dot@ =~= before + dot@.skip(before.len() as int));
                        }
                    }
                    assert(dot@.take(10) =~= "digraph {\n"@);
                }
            }
            v = v + 1;
        }
        let m = self.edges.len();
        let mut i: usize = 0;
        while i < m
            invariant
                i <= m,
                m == self.edges@.len(),
                self.wf(),
                dot@.len() >= 10,
                dot@.take(10) == "digraph {\n"@,
                forall|v2: usize|
                    v2 < n && in_graph(self.model(), v2) ==> contains_seq(
                        dot@,
                        spec_node_stmt(v2 as int, self.index.names@[v2 as int]@),
                    ),
                n == self.index.names@.len(),
                forall|i2: int|
                    0 <= i2 < i ==> contains_seq(
                        dot@,
                        spec_edge_stmt(
                            (#[trigger] self.model()[i2]).from as int,
                            self.model()[i2].to as int,
                            crate::math::edge_label_of(
                                self.model()[i2].history.last().isometry,
                                self.model()[i2].history.last().stamp,
                            ),
                        ),
                    ),
            decreases m - i,
        {
            proof {
                assert(self.model()[i as int] == self.edges@[i as int]@);
            }
            let ghost before = dot@;
            let hl = self.edges[i].history.history.len();
            let last = self.edges[i].history.history[hl - 1];
            let from_label = dec_string(self.edges[i].from);
            let to_label = dec_string(self.edges[i].to);
            let edge_text = crate::math::edge_label(&last.isometry, last.stamp);
            dot.append("    ");
            dot.append(from_label.as_str());
            dot.append(" -> ");
            dot.append(to_label.as_str());
            dot.append(" [label=\"");
            dot.append(edge_text.as_str());
            dot.append("\"]\n");
            proof {
                reveal_strlit("    ");
                reveal_strlit(" -> ");
                reveal_strlit(" [label=\"");
                reveal_strlit("\"]\n");
                let stmt = spec_edge_stmt(
                    self.model()[i as int].from as int,
                    self.model()[i as int].to as int,
                    crate::math::edge_label_of(
                        self.model()[i as int].history.last().isometry,
                        self.model()[i as int].history.last().stamp,
                    ),
                );
                assert(last == self.model()[i as int].history.last());
                assert(dot@ =~= (before + "    "@) + stmt + Seq::<char>::empty());
                lemma_contains_at(before + "    "@, stmt, Seq::<char>::empty());
                assert forall|x: Seq<char>| contains_seq(before, x) implies contains_seq(
                    dot@,
                    x,
                ) by {
                    lemma_contains_extend(before, dot@.skip(before.len() as int), x);
                    assert(dot@ =~= before + dot@.skip(before.len() as int));
                }
                assert(dot@.take(10) =~= "digraph {\n"@);
            }
            i = i + 1;
        }
        let ghost before = dot@;
        dot.append("}");
        proof {
            assert(dot@.take(10) =~= "digraph {\n"@);
            assert(dot@.last() == '}');
            assert forall|x: Seq<char>| contains_seq(before, x) implies contains_seq(
                dot@,
                x,
            ) by {
                lemma_contains_extend(before, dot@.skip(before.len() as int), x);
                assert(dot@ =~= before + dot@.skip(before.len() as int));
            }
        }
        dot
    }
}

} // verus!
