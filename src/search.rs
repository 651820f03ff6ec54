use vstd::prelude::*;
use crate::bbox::{
    GeoBBox, contains, overlaps, lemma_contains_overlaps, lemma_contains_trans, lemma_union_contains,
};
use crate::node::GeoNode;
use crate::tree::{linked, threaded};

verus! {

/// The positions, at or after `c`, of the leaves whose box overlaps `q`, in
/// index order.
pub open spec fn hits(nodes: Seq<GeoNode>, q: GeoBBox, c: int) -> Seq<int>
    decreases nodes.len() - c,
{
    if 0 <= c < nodes.len() {
        let rest = hits(nodes, q, c + 1);
        if nodes[c].is_leaf && overlaps(nodes[c].bbox, q) {
            seq![c] + rest
        } else {
            rest
        }
    } else {
        seq![]
    }
}

/// The node after leaf `j`, or 0 when `j` is the last node.
pub open spec fn step_after(nodes: Seq<GeoNode>, j: int) -> int {
    if j + 1 == nodes.len() {
        0
    } else {
        j + 1
    }
}

/// The leaves that a query for `q` from cursor `c` with room for `cap`
/// returns: the first `cap` hits from `c`.
pub open spec fn query_leaves(nodes: Seq<GeoNode>, q: GeoBBox, c: int, cap: int) -> Seq<GeoNode> {
    let h = hits(nodes, q, c);
    let k = if cap < h.len() {
        cap
    } else {
        h.len() as int
    };
    h.take(k).map_values(|j: int| nodes[j])
}

/// The cursor that such a query returns: `c` itself when `cap` is 0, 0 when
/// the hits ran out before `cap`, else the node after the last leaf returned.
pub open spec fn query_cursor(nodes: Seq<GeoNode>, q: GeoBBox, c: int, cap: int) -> int {
    let h = hits(nodes, q, c);
    if cap == 0 {
        c
    } else if h.len() < cap {
        0
    } else {
        step_after(nodes, h[cap - 1])
    }
}

/// Where the subtree of `k` ends: at `next`, or at the end of the array.
pub open spec fn span_end(nodes: Seq<GeoNode>, k: int) -> int {
    if nodes[k].next == 0 {
        nodes.len() as int
    } else {
        nodes[k].next as int
    }
}

/// Every leaf in the span of node `k` lies inside `k`'s box.
pub proof fn lemma_span_contains(nodes: Seq<GeoNode>, k: int, j: int)
    requires
        threaded(nodes),
        0 <= k < nodes.len(),
        k <= j < span_end(nodes, k),
        nodes[j].is_leaf,
    ensures
        contains(nodes[k].bbox, nodes[j].bbox),
    decreases span_end(nodes, k) - k,
{
    assert(linked(nodes, k));
    if !nodes[k].is_leaf {
        let v2 = nodes[k].value2 as int;
        lemma_union_contains(nodes[k + 1].bbox, nodes[v2].bbox);
        if j < v2 {
            lemma_span_contains(nodes, k + 1, j);
            lemma_contains_trans(nodes[k].bbox, nodes[k + 1].bbox, nodes[j].bbox);
        } else {
            lemma_span_contains(nodes, v2, j);
            lemma_contains_trans(nodes[k].bbox, nodes[v2].bbox, nodes[j].bbox);
        }
    }
}

/// A stretch without overlapping leaves adds no hits.
pub proof fn lemma_hits_skip(nodes: Seq<GeoNode>, q: GeoBBox, a: int, b: int)
    requires
        0 <= a <= b <= nodes.len(),
        forall|j: int| a <= j < b && nodes[j].is_leaf ==> !overlaps(#[trigger] nodes[j].bbox, q),
    ensures
        hits(nodes, q, a) == hits(nodes, q, b),
    decreases b - a,
{
    if a < b {
        lemma_hits_skip(nodes, q, a + 1, b);
    }
}

/// When node `k`'s box misses `q`, so does every leaf of its span.
pub proof fn lemma_span_misses(nodes: Seq<GeoNode>, q: GeoBBox, k: int)
    requires
        threaded(nodes),
        0 <= k < nodes.len(),
        !overlaps(nodes[k].bbox, q),
    ensures
        span_end(nodes, k) <= nodes.len(),
        hits(nodes, q, k) == hits(nodes, q, span_end(nodes, k)),
{
    assert(linked(nodes, k));
    assert forall|j: int| k <= j < span_end(nodes, k) && nodes[j].is_leaf implies !overlaps(
        #[trigger] nodes[j].bbox,
        q,
    ) by {
        lemma_span_contains(nodes, k, j);
        if overlaps(nodes[j].bbox, q) {
            lemma_contains_overlaps(nodes[k].bbox, nodes[j].bbox, q);
        }
    }
    lemma_hits_skip(nodes, q, k, span_end(nodes, k));
}

/// The hits are overlapping leaves at or after `c`, in increasing order.
pub proof fn lemma_hits_elems(nodes: Seq<GeoNode>, q: GeoBBox, c: int)
    requires
        0 <= c,
    ensures
        forall|i: int|
            0 <= i < hits(nodes, q, c).len() ==> c <= #[trigger] hits(nodes, q, c)[i] < nodes.len()
                && nodes[hits(nodes, q, c)[i]].is_leaf && overlaps(
                nodes[hits(nodes, q, c)[i]].bbox,
                q,
            ),
        forall|i: int, k: int|
            0 <= i < k < hits(nodes, q, c).len() ==> #[trigger] hits(nodes, q, c)[i] < #[trigger] hits(
                nodes,
                q,
                c,
            )[k],
    decreases nodes.len() - c,
{
    if 0 <= c < nodes.len() {
        lemma_hits_elems(nodes, q, c + 1);
        let h = hits(nodes, q, c);
        let rest = hits(nodes, q, c + 1);
        if nodes[c].is_leaf && overlaps(nodes[c].bbox, q) {
            assert forall|i: int| 0 < i < h.len() implies #[trigger] h[i] == rest[i - 1] by {}
            assert forall|i: int| 0 <= i < h.len() implies c <= #[trigger] h[i] < nodes.len()
                && nodes[h[i]].is_leaf && overlaps(nodes[h[i]].bbox, q) by {
                if i > 0 {
                    assert(h[i] == rest[i - 1]);
                }
            }
            assert forall|i: int, k: int| 0 <= i < k < h.len() implies #[trigger] h[i] < #[trigger] h[k] by {
                assert(h[k] == rest[k - 1]);
                if i > 0 {
                    assert(h[i] == rest[i - 1]);
                } else {
                    assert(c + 1 <= rest[k - 1]);
                }
            }
        }
    }
}

/// What remains after the `k`-th hit is exactly the hits after its position.
pub proof fn lemma_hits_split(nodes: Seq<GeoNode>, q: GeoBBox, c: int, k: int)
    requires
        0 <= c,
        0 <= k < hits(nodes, q, c).len(),
    ensures
        hits(nodes, q, c).skip(k + 1) == hits(nodes, q, hits(nodes, q, c)[k] + 1),
    decreases nodes.len() - c,
{
    let h = hits(nodes, q, c);
    if nodes[c].is_leaf && overlaps(nodes[c].bbox, q) {
        if k == 0 {
            assert(h.skip(1) =~= hits(nodes, q, c + 1));
        } else {
            lemma_hits_split(nodes, q, c + 1, k - 1);
            assert(h.skip(k + 1) =~= hits(nodes, q, c + 1).skip(k));
        }
    } else {
        lemma_hits_split(nodes, q, c + 1, k);
    }
}

} // verus!
